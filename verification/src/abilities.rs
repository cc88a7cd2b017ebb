//! Class abilities: guardian ward, radiance and bow mark, their buffs and
//! per-character cooldowns. Times are in milliseconds.
use vstd::prelude::*;
use crate::consent::PlayerId;
use crate::keyed::{lemma_filter_keeps_order, IdMap};

verus! {

/// The abilities a player can use.
#[derive(PartialEq, Eq, Structural, Clone, Copy)]
pub enum AbilityId {
    GuardianWard,
    Radiance,
    BowMark,
    DaggerDoubleSlash,
}

/// Why an ability was refused.
#[derive(PartialEq, Eq, Structural, Clone, Copy)]
pub enum AbilityRejectReason {
    Unavailable,
    Equipment,
    OutOfRange,
    Cooldown,
}

/// A bow mark: the monster marked, its floor, and until when.
pub struct BowMark {
    pub monster_id: String,
    pub floor_level: i8,
    pub until: u64,
}

/// Cooldowns by (character, ability): when each runs out.
pub struct Cooldowns {
    pub entries: Vec<((i64, AbilityId), u64)>,
}

impl Cooldowns {
    pub open spec fn wf(&self) -> bool {
        forall|i: int, j: int| 0 <= i < j < self.entries@.len()
            ==> #[trigger] self.entries@[i].0 != #[trigger] self.entries@[j].0
    }

    pub open spec fn has(&self, k: (i64, AbilityId)) -> bool {
        exists|i: int| 0 <= i < self.entries@.len() && #[trigger] self.entries@[i].0 == k
    }

    pub open spec fn view(&self) -> Map<(i64, AbilityId), u64> {
        Map::new(
            |k: (i64, AbilityId)| self.has(k),
            |k: (i64, AbilityId)| self.entries@[choose|i: int| 0 <= i < self.entries@.len()
                && #[trigger] self.entries@[i].0 == k].1,
        )
    }

    pub fn new() -> (c: Self)
        ensures
            c.wf(),
            c@ == Map::<(i64, AbilityId), u64>::empty(),
    {
        let c = Cooldowns { entries: Vec::new() };
        assert(c@ =~= Map::<(i64, AbilityId), u64>::empty());
        c
    }

    fn index_of(&self, character: i64, ability: AbilityId) -> (r: Option<usize>)
        requires
            self.wf(),
        ensures
            match r {
                Some(i) => i < self.entries@.len() && self.entries@[i as int].0 == (character, ability)
                    && self@.contains_key((character, ability)) && self@[(character, ability)] == self.entries@[i as int].1,
                None => !self@.contains_key((character, ability)),
            },
    {
        let mut i: usize = 0;
        while i < self.entries.len()
            invariant
                self.wf(),
                i <= self.entries@.len(),
                forall|j: int| 0 <= j < i ==> #[trigger] self.entries@[j].0 != (character, ability),
            decreases self.entries@.len() - i,
        {
            if self.entries[i].0.0 == character && self.entries[i].0.1 == ability {
                proof {
                    let k = (character, ability);
                    let c = choose|c: int| 0 <= c < self.entries@.len() && #[trigger] self.entries@[c].0 == k;
                    if c != i {
                        if c < i {
                            assert(self.entries@[c].0 != k);
                        } else {
                            assert(self.entries@[i as int].0 != self.entries@[c].0);
                        }
                    }
                }
                return Some(i);
            }
            i = i + 1;
        }
        None
    }

    /// How long `character`'s `ability` still cools down at `now`.
    pub fn cooldown_ms(&self, character: i64, ability: AbilityId, now: u64) -> (ms: u64)
        requires
            self.wf(),
        ensures
            ms == remaining_cooldown(self@, character, ability, now),
    {
        match self.index_of(character, ability) {
            Some(i) => {
                let until = self.entries[i].1;
                if until > now { until - now } else { 0 }
            },
            None => 0,
        }
    }

    /// Start `character`'s `ability` cooldown, running out at `until`.
    pub fn start(&mut self, character: i64, ability: AbilityId, until: u64)
        requires
            old(self).wf(),
        ensures
            final(self).wf(),
            final(self)@ == old(self)@.insert((character, ability), until),
    {
        let ghost k = (character, ability);
        match self.index_of(character, ability) {
            Some(i) => {
                self.entries.set(i, ((character, ability), until));
                proof {
                    let v = self@;
                    let w = old(self)@.insert(k, until);
                    assert forall|a: int, b: int| 0 <= a < b < self.entries@.len()
                        implies #[trigger] self.entries@[a].0 != #[trigger] self.entries@[b].0 by {
                        assert(self.entries@[a].0 == old(self).entries@[a].0);
                        assert(self.entries@[b].0 == old(self).entries@[b].0);
                    }
                    assert forall|x: (i64, AbilityId)| #[trigger] v.contains_key(x) <==> w.contains_key(x) by {
                        if v.contains_key(x) {
                            let c = choose|c: int| 0 <= c < self.entries@.len() && #[trigger] self.entries@[c].0 == x;
                            assert(old(self).entries@[c].0 == x);
                        }
                        if w.contains_key(x) && x != k {
                            let c = choose|c: int| 0 <= c < old(self).entries@.len() && #[trigger] old(self).entries@[c].0 == x;
                            assert(self.entries@[c].0 == x);
                        }
                        if x == k {
                            assert(self.entries@[i as int].0 == x);
                        }
                    }
                    assert forall|x: (i64, AbilityId)| #[trigger] v.contains_key(x) implies v[x] == w[x] by {
                        let c = choose|c: int| 0 <= c < self.entries@.len() && #[trigger] self.entries@[c].0 == x;
                        if x == k {
                            if c != i {
                                assert(self.entries@[c].0 != self.entries@[i as int].0);
                            }
                        } else {
                            let c2 = choose|c2: int| 0 <= c2 < old(self).entries@.len() && #[trigger] old(self).entries@[c2].0 == x;
                            assert(old(self).entries@[c].0 == x);
                            if c != c2 {
                                assert(old(self).entries@[c].0 != old(self).entries@[c2].0);
                            }
                        }
                    }
                    assert(v =~= w);
                }
            },
            None => {
                self.entries.push(((character, ability), until));
                proof {
                    let n = old(self).entries@.len() as int;
                    let v = self@;
                    let w = old(self)@.insert(k, until);
                    assert(self.entries@[n].0 == k);
                    assert forall|a: int, b: int| 0 <= a < b < self.entries@.len()
                        implies #[trigger] self.entries@[a].0 != #[trigger] self.entries@[b].0 by {
                        if b == n {
                            assert(!old(self).has(k));
                            assert(old(self).entries@[a].0 != k);
                        } else {
                            assert(old(self).entries@[a].0 != old(self).entries@[b].0);
                        }
                    }
                    assert forall|x: (i64, AbilityId)| #[trigger] v.contains_key(x) <==> w.contains_key(x) by {
                        if v.contains_key(x) && x != k {
                            let c = choose|c: int| 0 <= c < self.entries@.len() && #[trigger] self.entries@[c].0 == x;
                            assert(c < n);
                            assert(old(self).entries@[c].0 == x);
                        }
                        if w.contains_key(x) && x != k {
                            let c = choose|c: int| 0 <= c < old(self).entries@.len() && #[trigger] old(self).entries@[c].0 == x;
                            assert(self.entries@[c].0 == x);
                        }
                    }
                    assert forall|x: (i64, AbilityId)| #[trigger] v.contains_key(x) implies v[x] == w[x] by {
                        let c = choose|c: int| 0 <= c < self.entries@.len() && #[trigger] self.entries@[c].0 == x;
                        if x == k {
                            if c != n {
                                assert(old(self).entries@[c].0 == k);
                                assert(old(self).has(k));
                            }
                        } else {
                            assert(c < n);
                            let c2 = choose|c2: int| 0 <= c2 < old(self).entries@.len() && #[trigger] old(self).entries@[c2].0 == x;
                            if c != c2 {
                                assert(old(self).entries@[c].0 != old(self).entries@[c2].0);
                            }
                        }
                    }
                    assert(v =~= w);
                }
            },
        }
    }

    /// Forget the cooldowns that ran out by `now`.
    /// Forget the cooldowns that ran out by `now`.
    pub fn prune(&mut self, now: u64)
        requires
            old(self).wf(),
        ensures
            final(self).wf(),
            final(self)@ == Map::new(|k: (i64, AbilityId)| old(self)@.contains_key(k) && old(self)@[k] > now,
                |k: (i64, AbilityId)| old(self)@[k]),
    {
        let ghost pred = |e: ((i64, AbilityId), u64)| e.1 > now;
        let mut kept: Vec<((i64, AbilityId), u64)> = Vec::new();
        let mut i: usize = 0;
        while i < self.entries.len()
            invariant
                *self == *old(self),
                i <= self.entries@.len(),
                pred == (|e: ((i64, AbilityId), u64)| e.1 > now),
                kept@ == self.entries@.subrange(0, i as int).filter(pred),
            decreases self.entries@.len() - i,
        {
            proof {
                assert(self.entries@.subrange(0, i + 1) =~= self.entries@.subrange(0, i as int).push(self.entries@[i as int]));
                self.entries@.subrange(0, i as int).lemma_filter_push(self.entries@[i as int], pred);
            }
            let e = self.entries[i];
            if e.1 > now {
                kept.push(e);
            }
            i = i + 1;
        }
        proof {
            assert(self.entries@.subrange(0, self.entries@.len() as int) =~= self.entries@);
        }
        let ghost kept_seq = kept@;
        self.entries = kept;
        proof {
            let o = old(self).entries@;
            let m = old(self)@;
            assert forall|a: int, b: int| 0 <= a < b < kept_seq.len() implies #[trigger] kept_seq[a].0 != #[trigger] kept_seq[b].0 by {
                lemma_filter_keeps_order(o, pred, a, b);
                let (x, y) = choose|x: int, y: int| 0 <= x < y < o.len() && o[x] == o.filter(pred)[a] && o[y] == o.filter(pred)[b];
                assert(o[x].0 != o[y].0);
            }
            let v = self@;
            let w = Map::new(|k: (i64, AbilityId)| m.contains_key(k) && m[k] > now, |k: (i64, AbilityId)| m[k]);
            assert forall|x: (i64, AbilityId)| #[trigger] v.contains_key(x) implies w.contains_key(x) && v[x] == w[x] by {
                let a = choose|a: int| 0 <= a < kept_seq.len() && #[trigger] kept_seq[a].0 == x;
                assert(kept_seq.contains(kept_seq[a]));
                o.lemma_filter_contains_rev(pred, kept_seq[a]);
                o.lemma_filter_pred(pred, a);
                let j = choose|j: int| 0 <= j < o.len() && o[j] == kept_seq[a];
                assert(o[j].0 == x);
                assert(old(self).has(x));
                let c = choose|c: int| 0 <= c < o.len() && #[trigger] o[c].0 == x;
                if c != j {
                    if c < j { assert(o[c].0 != o[j].0); } else { assert(o[j].0 != o[c].0); }
                }
                let a2 = choose|a2: int| 0 <= a2 < kept_seq.len() && #[trigger] kept_seq[a2].0 == x;
                if a2 != a {
                    if a2 < a { assert(kept_seq[a2].0 != kept_seq[a].0); } else { assert(kept_seq[a].0 != kept_seq[a2].0); }
                }
            }
            assert forall|x: (i64, AbilityId)| #[trigger] w.contains_key(x) implies v.contains_key(x) by {
                let c = choose|c: int| 0 <= c < o.len() && #[trigger] o[c].0 == x;
                o.lemma_filter_contains(pred, c);
                let a = choose|a: int| 0 <= a < kept_seq.len() && kept_seq[a] == o[c];
                assert(kept_seq[a].0 == x);
            }
            assert(v =~= w);
        }
    }
}

/// How long `character`'s `ability` still cools down at `now`.
pub open spec fn remaining_cooldown(m: Map<(i64, AbilityId), u64>, character: i64, ability: AbilityId, now: u64) -> u64 {
    if m.contains_key((character, ability)) && m[(character, ability)] > now {
        (m[(character, ability)] - now) as u64
    } else {
        0
    }
}

/// A buff timer `until` is running at `now`.
pub open spec fn running(until: Option<u64>, now: u64) -> bool {
    match until {
        Some(u) => u > now,
        None => false,
    }
}

/// The buffs and cooldowns of every player and character.
pub struct Abilities {
    pub wards: IdMap<u64>,
    pub radiances: IdMap<u64>,
    pub marks: IdMap<BowMark>,
    pub cooldowns: Cooldowns,
}

/// The timer of a map entry, if there is one.
pub open spec fn timer_of(m: Map<PlayerId, u64>, p: PlayerId) -> Option<u64> {
    if m.contains_key(p) { Some(m[p]) } else { None }
}

impl Abilities {
    pub open spec fn wf(&self) -> bool {
        self.wards.wf() && self.radiances.wf() && self.marks.wf() && self.cooldowns.wf()
    }

    pub fn new() -> (a: Self)
        ensures
            a.wf(),
            a.wards@ == Map::<PlayerId, u64>::empty(),
            a.radiances@ == Map::<PlayerId, u64>::empty(),
            a.marks@ == Map::<PlayerId, BowMark>::empty(),
            a.cooldowns@ == Map::<(i64, AbilityId), u64>::empty(),
    {
        Abilities { wards: IdMap::new(), radiances: IdMap::new(), marks: IdMap::new(), cooldowns: Cooldowns::new() }
    }

    /// Whether `player`'s running bow mark is on `monster_id`.
    pub fn marks_target(&self, player: PlayerId, monster_id: &str, now: u64) -> (r: bool)
        requires
            self.wf(),
        ensures
            r == (self.marks@.contains_key(player) && self.marks@[player].monster_id@ == monster_id@
                && self.marks@[player].until > now),
    {
        match self.marks.get(player) {
            Some(mark) => mark.monster_id.eq(&crate::text::owned(monster_id)) && mark.until > now,
            None => false,
        }
    }

    /// `base` guard, raised by a tenth of itself (if positive) while a
    /// guardian ward covers `player`.
    pub fn guard(&self, player: PlayerId, base: i32, now: u64) -> (g: i32)
        requires
            self.wf(),
            base + (if base > 0 { base / 10 } else { 0 }) <= i32::MAX,
        ensures
            g == if running(timer_of(self.wards@, player), now) {
                base + if base > 0 { base / 10 } else { 0 }
            } else {
                base as int
            },
    {
        let warded = match self.wards.get(player) {
            Some(until) => *until > now,
            None => false,
        };
        if warded {
            base + (if base > 0 { base } else { 0 }) / 10
        } else {
            base
        }
    }

    /// The running buffs on `player` as (ability, remaining), in the order
    /// ward, radiance, mark.
    pub fn buff_timers(&self, player: PlayerId, now: u64) -> (v: Vec<(AbilityId, u64)>)
        requires
            self.wf(),
        ensures
            v@ == buff_list(timer_of(self.wards@, player), timer_of(self.radiances@, player),
                if self.marks@.contains_key(player) { Some(self.marks@[player].until) } else { None }, now),
    {
        let mut v: Vec<(AbilityId, u64)> = Vec::new();
        let ward = match self.wards.get(player) { Some(u) => Some(*u), None => None };
        let radiance = match self.radiances.get(player) { Some(u) => Some(*u), None => None };
        let mark = match self.marks.get(player) { Some(m) => Some(m.until), None => None };
        if let Some(u) = ward {
            if u > now {
                v.push((AbilityId::GuardianWard, u - now));
            }
        }
        if let Some(u) = radiance {
            if u > now {
                v.push((AbilityId::Radiance, u - now));
            }
        }
        if let Some(u) = mark {
            if u > now {
                v.push((AbilityId::BowMark, u - now));
            }
        }
        proof {
            assert(v@ =~= buff_list(ward, radiance, mark, now));
        }
        v
    }

    /// Radiance toggles: on if it was off, off if it was on, and either way
    /// its cooldown starts. Refused while cooling down.
    pub fn try_radiance(&mut self, player: PlayerId, character: i64, now: u64, cooldown_ms: u64, duration_ms: u64)
        -> (r: Result<(), AbilityRejectReason>)
        requires
            old(self).wf(),
            now + cooldown_ms <= u64::MAX,
            now + duration_ms <= u64::MAX,
        ensures
            final(self).wf(),
            remaining_cooldown(old(self).cooldowns@, character, AbilityId::Radiance, now) > 0 ==> r == Err::<(), AbilityRejectReason>(AbilityRejectReason::Cooldown)
                && final(self).radiances@ == old(self).radiances@ && final(self).cooldowns@ == old(self).cooldowns@,
            remaining_cooldown(old(self).cooldowns@, character, AbilityId::Radiance, now) == 0 ==> r is Ok
                && final(self).cooldowns@ == old(self).cooldowns@.insert((character, AbilityId::Radiance), (now + cooldown_ms) as u64)
                && final(self).radiances@ == if running(timer_of(old(self).radiances@, player), now) {
                    old(self).radiances@.remove(player)
                } else {
                    old(self).radiances@.insert(player, (now + duration_ms) as u64)
                },
            final(self).wards == old(self).wards,
            final(self).marks == old(self).marks,
    {
        if self.cooldowns.cooldown_ms(character, AbilityId::Radiance, now) > 0 {
            return Err(AbilityRejectReason::Cooldown);
        }
        self.cooldowns.start(character, AbilityId::Radiance, now + cooldown_ms);
        let on = match self.radiances.get(player) {
            Some(until) => *until > now,
            None => false,
        };
        if on {
            self.radiances.remove(player);
        } else {
            self.radiances.insert(player, now + duration_ms);
        }
        Ok(())
    }

    /// A guardian ward: refused while cooling down; otherwise its cooldown
    /// starts and every target (the caster and party members beside them)
    /// is warded until `now + duration_ms`.
    pub fn try_guardian_ward(&mut self, character: i64, targets: &Vec<PlayerId>, now: u64, cooldown_ms: u64, duration_ms: u64)
        -> (r: Result<(), AbilityRejectReason>)
        requires
            old(self).wf(),
            now + cooldown_ms <= u64::MAX,
            now + duration_ms <= u64::MAX,
        ensures
            final(self).wf(),
            remaining_cooldown(old(self).cooldowns@, character, AbilityId::GuardianWard, now) > 0 ==> r == Err::<(), AbilityRejectReason>(AbilityRejectReason::Cooldown)
                && final(self).wards@ == old(self).wards@ && final(self).cooldowns@ == old(self).cooldowns@,
            remaining_cooldown(old(self).cooldowns@, character, AbilityId::GuardianWard, now) == 0 ==> r is Ok
                && final(self).cooldowns@ == old(self).cooldowns@.insert((character, AbilityId::GuardianWard), (now + cooldown_ms) as u64)
                && forall|p: PlayerId| #[trigger] final(self).wards@.contains_key(p) <==> (old(self).wards@.contains_key(p) || targets@.contains(p))
                && forall|p: PlayerId| #[trigger] final(self).wards@.contains_key(p) ==> final(self).wards@[p] == if targets@.contains(p) {
                    (now + duration_ms) as u64
                } else {
                    old(self).wards@[p]
                },
            final(self).radiances == old(self).radiances,
            final(self).marks == old(self).marks,
    {
        if self.cooldowns.cooldown_ms(character, AbilityId::GuardianWard, now) > 0 {
            return Err(AbilityRejectReason::Cooldown);
        }
        self.cooldowns.start(character, AbilityId::GuardianWard, now + cooldown_ms);
        let until = now + duration_ms;
        let mut i: usize = 0;
        while i < targets.len()
            invariant
                self.wards.wf(),
                self.cooldowns.wf(),
                self.radiances == old(self).radiances,
                self.marks == old(self).marks,
                self.cooldowns@ == old(self).cooldowns@.insert((character, AbilityId::GuardianWard), (now + cooldown_ms) as u64),
                i <= targets@.len(),
                forall|p: PlayerId| #[trigger] self.wards@.contains_key(p) <==> (old(self).wards@.contains_key(p) || targets@.subrange(0, i as int).contains(p)),
                forall|p: PlayerId| #[trigger] self.wards@.contains_key(p) ==> self.wards@[p] == if targets@.subrange(0, i as int).contains(p) {
                    until
                } else {
                    old(self).wards@[p]
                },
            decreases targets@.len() - i,
        {
            self.wards.insert(targets[i], until);
            proof {
                let pre = targets@.subrange(0, i as int);
                let post = targets@.subrange(0, i + 1);
                assert(post =~= pre.push(targets@[i as int]));
                assert forall|p: PlayerId| post.contains(p) <==> (pre.contains(p) || p == targets@[i as int]) by {
                    if post.contains(p) {
                        let w = choose|w: int| 0 <= w < post.len() && post[w] == p;
                        if w < i {
                            assert(pre[w] == p);
                        }
                    }
                    if pre.contains(p) {
                        let w = choose|w: int| 0 <= w < pre.len() && pre[w] == p;
                        assert(post[w] == p);
                    }
                    if p == targets@[i as int] {
                        assert(post[i as int] == p);
                    }
                }
            }
            i = i + 1;
        }
        proof {
            assert(targets@.subrange(0, targets@.len() as int) =~= targets@);
        }
        Ok(())
    }

    /// A bow mark on `monster_id` (on `floor_level`): refused while cooling
    /// down; otherwise its cooldown starts and the mark holds until
    /// `now + duration_ms`.
    pub fn try_bow_mark(&mut self, player: PlayerId, character: i64, monster_id: String, floor_level: i8, now: u64,
        cooldown_ms: u64, duration_ms: u64) -> (r: Result<(), AbilityRejectReason>)
        requires
            old(self).wf(),
            now + cooldown_ms <= u64::MAX,
            now + duration_ms <= u64::MAX,
        ensures
            final(self).wf(),
            remaining_cooldown(old(self).cooldowns@, character, AbilityId::BowMark, now) > 0 ==> r == Err::<(), AbilityRejectReason>(AbilityRejectReason::Cooldown)
                && final(self).marks@ == old(self).marks@ && final(self).cooldowns@ == old(self).cooldowns@,
            remaining_cooldown(old(self).cooldowns@, character, AbilityId::BowMark, now) == 0 ==> r is Ok
                && final(self).cooldowns@ == old(self).cooldowns@.insert((character, AbilityId::BowMark), (now + cooldown_ms) as u64)
                && final(self).marks@ == old(self).marks@.insert(player,
                    BowMark { monster_id, floor_level, until: (now + duration_ms) as u64 }),
            final(self).wards == old(self).wards,
            final(self).radiances == old(self).radiances,
    {
        if self.cooldowns.cooldown_ms(character, AbilityId::BowMark, now) > 0 {
            return Err(AbilityRejectReason::Cooldown);
        }
        self.cooldowns.start(character, AbilityId::BowMark, now + cooldown_ms);
        self.marks.insert(player, BowMark { monster_id, floor_level, until: now + duration_ms });
        Ok(())
    }

    /// Death drops the ward, radiance and mark; whether any was there.
    pub fn clear_buffs(&mut self, player: PlayerId) -> (removed: bool)
        requires
            old(self).wf(),
        ensures
            final(self).wf(),
            final(self).wards@ == old(self).wards@.remove(player),
            final(self).radiances@ == old(self).radiances@.remove(player),
            final(self).marks@ == old(self).marks@.remove(player),
            final(self).cooldowns == old(self).cooldowns,
            removed == (old(self).wards@.contains_key(player) || old(self).radiances@.contains_key(player)
                || old(self).marks@.contains_key(player)),
    {
        let ward = self.wards.remove(player).is_some();
        let radiance = self.radiances.remove(player).is_some();
        let mark = self.marks.remove(player).is_some();
        ward || radiance || mark
    }
}

/// The running buffs as (ability, remaining) in the order ward, radiance,
/// mark.
pub open spec fn buff_list(ward: Option<u64>, radiance: Option<u64>, mark: Option<u64>, now: u64) -> Seq<(AbilityId, u64)> {
    let a = if running(ward, now) { seq![(AbilityId::GuardianWard, (ward->0 - now) as u64)] } else { Seq::empty() };
    let b = if running(radiance, now) { seq![(AbilityId::Radiance, (radiance->0 - now) as u64)] } else { Seq::empty() };
    let c = if running(mark, now) { seq![(AbilityId::BowMark, (mark->0 - now) as u64)] } else { Seq::empty() };
    a + b + c
}

/// An ability used at `now` with a cooldown running out at `until` refuses
/// another use until then.
pub proof fn law_cooldown_refuses_reuse(m: Map<(i64, AbilityId), u64>, character: i64, ability: AbilityId, until: u64, later: u64)
    requires
        later < until,
    ensures
        remaining_cooldown(m.insert((character, ability), until), character, ability, later) > 0,
{
}

/// A guardian ward needs a one-handed sword or mace in the main hand and a
/// shield in the off hand.
pub fn ward_equipment_ok(main_is_sword_or_mace: bool, main_two_handed: bool, off_is_shield: bool) -> (ok: bool)
    ensures
        ok == (main_is_sword_or_mace && !main_two_handed && off_is_shield),
{
    main_is_sword_or_mace && !main_two_handed && off_is_shield
}

/// Drop the timers of `m` that ran out by `now`; their players come back.
fn expire_timers(m: &mut IdMap<u64>, now: u64) -> (expired: Vec<PlayerId>)
    requires
        old(m).wf(),
    ensures
        final(m).wf(),
        final(m).entries@ == old(m).entries@.filter(|e: (PlayerId, u64)| e.1 > now),
        forall|p: PlayerId| #[trigger] expired@.contains(p) <==> (old(m)@.contains_key(p) && old(m)@[p] <= now),
{
    let ghost pred = |e: (PlayerId, u64)| e.1 > now;
    let mut kept: Vec<(PlayerId, u64)> = Vec::new();
    let mut expired: Vec<PlayerId> = Vec::new();
    let mut i: usize = 0;
    while i < m.entries.len()
        invariant
            *m == *old(m),
            m.wf(),
            i <= m.entries@.len(),
            pred == (|e: (PlayerId, u64)| e.1 > now),
            kept@ == m.entries@.subrange(0, i as int).filter(pred),
            forall|p: PlayerId| #[trigger] expired@.contains(p) <==> exists|j: int| 0 <= j < i && #[trigger] m.entries@[j].0 == p && m.entries@[j].1 <= now,
        decreases m.entries@.len() - i,
    {
        proof {
            assert(m.entries@.subrange(0, i + 1) =~= m.entries@.subrange(0, i as int).push(m.entries@[i as int]));
            m.entries@.subrange(0, i as int).lemma_filter_push(m.entries@[i as int], pred);
        }
        let e = m.entries[i];
        if e.1 > now {
            kept.push(e);
            proof {
                assert forall|p: PlayerId| #[trigger] expired@.contains(p) <==> exists|j: int| 0 <= j < i + 1 && #[trigger] m.entries@[j].0 == p && m.entries@[j].1 <= now by {
                    if exists|j: int| 0 <= j < i + 1 && #[trigger] m.entries@[j].0 == p && m.entries@[j].1 <= now {
                        let j = choose|j: int| 0 <= j < i + 1 && #[trigger] m.entries@[j].0 == p && m.entries@[j].1 <= now;
                        assert(j != i);
                    }
                }
            }
        } else {
            let ghost before = expired@;
            expired.push(e.0);
            proof {
                assert forall|p: PlayerId| #[trigger] expired@.contains(p) <==> exists|j: int| 0 <= j < i + 1 && #[trigger] m.entries@[j].0 == p && m.entries@[j].1 <= now by {
                    if expired@.contains(p) {
                        let w = choose|w: int| 0 <= w < expired@.len() && expired@[w] == p;
                        if w < before.len() {
                            assert(before.contains(p));
                            let j = choose|j: int| 0 <= j < i && #[trigger] m.entries@[j].0 == p && m.entries@[j].1 <= now;
                            assert(0 <= j < i + 1);
                        } else {
                            assert(m.entries@[i as int].0 == p);
                        }
                    }
                    if exists|j: int| 0 <= j < i + 1 && #[trigger] m.entries@[j].0 == p && m.entries@[j].1 <= now {
                        let j = choose|j: int| 0 <= j < i + 1 && #[trigger] m.entries@[j].0 == p && m.entries@[j].1 <= now;
                        if j < i {
                            assert(before.contains(p));
                            let w = choose|w: int| 0 <= w < before.len() && before[w] == p;
                            assert(expired@[w] == p);
                        } else {
                            assert(expired@[before.len() as int] == p);
                        }
                    }
                }
            }
        }
        i = i + 1;
    }
    proof {
        let o = m.entries@;
        assert(o.subrange(0, o.len() as int) =~= o);
        assert forall|p: PlayerId| #[trigger] expired@.contains(p) <==> (old(m)@.contains_key(p) && old(m)@[p] <= now) by {
            if exists|j: int| 0 <= j < o.len() && #[trigger] o[j].0 == p && o[j].1 <= now {
                let j = choose|j: int| 0 <= j < o.len() && #[trigger] o[j].0 == p && o[j].1 <= now;
                let c = choose|c: int| 0 <= c < o.len() && #[trigger] o[c].0 == p;
                if c != j {
                    if c < j { assert(o[c].0 != o[j].0); } else { assert(o[j].0 != o[c].0); }
                }
            }
            if old(m)@.contains_key(p) && old(m)@[p] <= now {
                let c = choose|c: int| 0 <= c < o.len() && #[trigger] o[c].0 == p;
                assert(0 <= c < o.len() && o[c].0 == p && o[c].1 <= now);
            }
        }
        assert forall|a: int, b: int| 0 <= a < b < kept@.len() implies #[trigger] kept@[a].0 != #[trigger] kept@[b].0 by {
            lemma_filter_keeps_order(o, pred, a, b);
            let (x, y) = choose|x: int, y: int| 0 <= x < y < o.len() && o[x] == o.filter(pred)[a] && o[y] == o.filter(pred)[b];
            assert(o[x].0 != o[y].0);
        }
    }
    m.entries = kept;
    expired
}

/// A bow mark stays while it runs and its caster and target stay valid:
/// `invalid` lists, with the timer they saw, the marks found invalid.
pub open spec fn mark_stays(e: (PlayerId, BowMark), now: u64, invalid: Seq<(PlayerId, u64)>) -> bool {
    e.1.until > now && !invalid.contains((e.0, e.1.until))
}

impl Abilities {
    /// The buff sweep at `now`: cooldowns, wards and radiances that ran out
    /// go, and so do marks that ran out or were found invalid (`invalid`,
    /// each with the timer seen when it was checked, so that a mark renewed
    /// since stays). The players whose buffs changed come back.
    pub fn tick_buffs(&mut self, now: u64, invalid: &Vec<(PlayerId, u64)>) -> (changed: Vec<PlayerId>)
        requires
            old(self).wf(),
        ensures
            final(self).wf(),
            final(self).cooldowns@ == Map::new(|k: (i64, AbilityId)| old(self).cooldowns@.contains_key(k) && old(self).cooldowns@[k] > now,
                |k: (i64, AbilityId)| old(self).cooldowns@[k]),
            final(self).wards.entries@ == old(self).wards.entries@.filter(|e: (PlayerId, u64)| e.1 > now),
            final(self).radiances.entries@ == old(self).radiances.entries@.filter(|e: (PlayerId, u64)| e.1 > now),
            final(self).marks.entries@ == old(self).marks.entries@.filter(|e: (PlayerId, BowMark)| mark_stays(e, now, invalid@)),
            forall|p: PlayerId| #[trigger] changed@.contains(p) <==> (
                (old(self).wards@.contains_key(p) && old(self).wards@[p] <= now)
                || (old(self).radiances@.contains_key(p) && old(self).radiances@[p] <= now)
                || (old(self).marks@.contains_key(p) && !mark_stays((p, old(self).marks@[p]), now, invalid@))),
    {
        self.cooldowns.prune(now);
        let mut changed = expire_timers(&mut self.wards, now);
        let more = expire_timers(&mut self.radiances, now);
        let ghost first = changed@;
        let mut k: usize = 0;
        while k < more.len()
            invariant
                k <= more@.len(),
                forall|p: PlayerId| #[trigger] changed@.contains(p) <==> (first.contains(p) || more@.subrange(0, k as int).contains(p)),
            decreases more@.len() - k,
        {
            let ghost before = changed@;
            changed.push(more[k]);
            proof {
                let pre = more@.subrange(0, k as int);
                let post = more@.subrange(0, k + 1);
                assert forall|p: PlayerId| #[trigger] changed@.contains(p) <==> (first.contains(p) || post.contains(p)) by {
                    if changed@.contains(p) {
                        let w = choose|w: int| 0 <= w < changed@.len() && changed@[w] == p;
                        if w < before.len() {
                            assert(before.contains(p));
                            if pre.contains(p) {
                                let v = choose|v: int| 0 <= v < pre.len() && pre[v] == p;
                                assert(post[v] == p);
                            }
                        } else {
                            assert(post[k as int] == p);
                        }
                    }
                    if post.contains(p) {
                        let v = choose|v: int| 0 <= v < post.len() && post[v] == p;
                        if v < k {
                            assert(pre[v] == p);
                            assert(before.contains(p));
                            let w = choose|w: int| 0 <= w < before.len() && before[w] == p;
                            assert(changed@[w] == p);
                        } else {
                            assert(changed@[before.len() as int] == p);
                        }
                    }
                    if first.contains(p) {
                        assert(before.contains(p));
                        let w = choose|w: int| 0 <= w < before.len() && before[w] == p;
                        assert(changed@[w] == p);
                    }
                }
            }
            k = k + 1;
        }
        proof {
            assert(more@.subrange(0, more@.len() as int) =~= more@);
        }
        let ghost upto = changed@;
        let ghost pred = |e: (PlayerId, BowMark)| mark_stays(e, now, invalid@);
        let mut kept: Vec<(PlayerId, BowMark)> = Vec::new();
        let mut old_marks: Vec<(PlayerId, BowMark)> = Vec::new();
        std::mem::swap(&mut old_marks, &mut self.marks.entries);
        let ghost om = old_marks@;
        let mut i: usize = 0;
        while i < old_marks.len()
            invariant
                old_marks@ == om,
                om == old(self).marks.entries@,
                i <= om.len(),
                pred == (|e: (PlayerId, BowMark)| mark_stays(e, now, invalid@)),
                kept@ == om.subrange(0, i as int).filter(pred),
                forall|p: PlayerId| #[trigger] changed@.contains(p) <==> (upto.contains(p)
                    || exists|j: int| 0 <= j < i && #[trigger] om[j].0 == p && !mark_stays(om[j], now, invalid@)),
            decreases om.len() - i,
        {
            proof {
                assert(om.subrange(0, i + 1) =~= om.subrange(0, i as int).push(om[i as int]));
                om.subrange(0, i as int).lemma_filter_push(om[i as int], pred);
            }
            let e = &old_marks[i];
            let mut seen = false;
            let mut q: usize = 0;
            while q < invalid.len()
                invariant
                    q <= invalid@.len(),
                    seen == exists|z: int| 0 <= z < q && invalid@[z] == (e.0, e.1.until),
                decreases invalid@.len() - q,
            {
                if invalid[q].0 == e.0 && invalid[q].1 == e.1.until {
                    seen = true;
                }
                q = q + 1;
            }
            let stays = e.1.until > now && !seen;
            if stays {
                let copy = (e.0, BowMark { monster_id: e.1.monster_id.clone(), floor_level: e.1.floor_level, until: e.1.until });
                kept.push(copy);
                proof {
                    assert forall|p: PlayerId| #[trigger] changed@.contains(p) <==> (upto.contains(p)
                        || exists|j: int| 0 <= j < i + 1 && #[trigger] om[j].0 == p && !mark_stays(om[j], now, invalid@)) by {
                        if exists|j: int| 0 <= j < i + 1 && #[trigger] om[j].0 == p && !mark_stays(om[j], now, invalid@) {
                            let j = choose|j: int| 0 <= j < i + 1 && #[trigger] om[j].0 == p && !mark_stays(om[j], now, invalid@);
                            assert(j != i);
                        }
                    }
                }
            } else {
                let ghost before = changed@;
                changed.push(e.0);
                proof {
                    assert forall|p: PlayerId| #[trigger] changed@.contains(p) <==> (upto.contains(p)
                        || exists|j: int| 0 <= j < i + 1 && #[trigger] om[j].0 == p && !mark_stays(om[j], now, invalid@)) by {
                        if changed@.contains(p) {
                            let w = choose|w: int| 0 <= w < changed@.len() && changed@[w] == p;
                            if w < before.len() {
                                assert(before.contains(p));
                            } else {
                                assert(om[i as int].0 == p);
                            }
                        }
                        if upto.contains(p) || exists|j: int| 0 <= j < i && #[trigger] om[j].0 == p && !mark_stays(om[j], now, invalid@) {
                            assert(before.contains(p));
                            let w = choose|w: int| 0 <= w < before.len() && before[w] == p;
                            assert(changed@[w] == p);
                        }
                        if om[i as int].0 == p {
                            assert(changed@[before.len() as int] == p);
                        }
                    }
                }
            }
            i = i + 1;
        }
        proof {
            assert(om.subrange(0, om.len() as int) =~= om);
            assert forall|a: int, b: int| 0 <= a < b < kept@.len() implies #[trigger] kept@[a].0 != #[trigger] kept@[b].0 by {
                lemma_filter_keeps_order(om, pred, a, b);
                let (x, y) = choose|x: int, y: int| 0 <= x < y < om.len() && om[x] == om.filter(pred)[a] && om[y] == om.filter(pred)[b];
                assert(om[x].0 != om[y].0);
            }
            assert forall|p: PlayerId| (exists|j: int| 0 <= j < om.len() && #[trigger] om[j].0 == p && !mark_stays(om[j], now, invalid@))
                <==> (old(self).marks@.contains_key(p) && !mark_stays((p, old(self).marks@[p]), now, invalid@)) by {
                if exists|j: int| 0 <= j < om.len() && #[trigger] om[j].0 == p && !mark_stays(om[j], now, invalid@) {
                    let j = choose|j: int| 0 <= j < om.len() && #[trigger] om[j].0 == p && !mark_stays(om[j], now, invalid@);
                    let c = choose|c: int| 0 <= c < om.len() && #[trigger] om[c].0 == p;
                    if c != j {
                        if c < j { assert(om[c].0 != om[j].0); } else { assert(om[j].0 != om[c].0); }
                    }
                }
                if old(self).marks@.contains_key(p) && !mark_stays((p, old(self).marks@[p]), now, invalid@) {
                    let c = choose|c: int| 0 <= c < om.len() && #[trigger] om[c].0 == p;
                    assert(om[c] == (p, old(self).marks@[p]));
                }
            }
        }
        self.marks.entries = kept;
        changed
    }
}


/// What `character` (if the player has one) still waits on `ability`.
pub open spec fn cooldown_of(m: Map<(i64, AbilityId), u64>, character: Option<i64>, ability: AbilityId, now: u64) -> u64 {
    match character {
        Some(c) => remaining_cooldown(m, c, ability, now),
        None => 0,
    }
}

impl Abilities {
    /// Every ability's remaining cooldown, in the order ward, radiance,
    /// mark, double slash; `dagger_ms` is the double slash's own, and a
    /// player without a character waits on nothing.
    pub fn cooldown_timers(&self, character: Option<i64>, now: u64, dagger_ms: u64) -> (v: Vec<(AbilityId, u64)>)
        requires
            self.wf(),
        ensures
            v@ == seq![
                (AbilityId::GuardianWard, cooldown_of(self.cooldowns@, character, AbilityId::GuardianWard, now)),
                (AbilityId::Radiance, cooldown_of(self.cooldowns@, character, AbilityId::Radiance, now)),
                (AbilityId::BowMark, cooldown_of(self.cooldowns@, character, AbilityId::BowMark, now)),
                (AbilityId::DaggerDoubleSlash, match character { Some(_) => dagger_ms, None => 0u64 }),
            ],
    {
        let mut v: Vec<(AbilityId, u64)> = Vec::new();
        match character {
            Some(c) => {
                v.push((AbilityId::GuardianWard, self.cooldowns.cooldown_ms(c, AbilityId::GuardianWard, now)));
                v.push((AbilityId::Radiance, self.cooldowns.cooldown_ms(c, AbilityId::Radiance, now)));
                v.push((AbilityId::BowMark, self.cooldowns.cooldown_ms(c, AbilityId::BowMark, now)));
                v.push((AbilityId::DaggerDoubleSlash, dagger_ms));
            },
            None => {
                v.push((AbilityId::GuardianWard, 0));
                v.push((AbilityId::Radiance, 0));
                v.push((AbilityId::BowMark, 0));
                v.push((AbilityId::DaggerDoubleSlash, 0));
            },
        }
        assert(v@ =~= seq![
            (AbilityId::GuardianWard, cooldown_of(self.cooldowns@, character, AbilityId::GuardianWard, now)),
            (AbilityId::Radiance, cooldown_of(self.cooldowns@, character, AbilityId::Radiance, now)),
            (AbilityId::BowMark, cooldown_of(self.cooldowns@, character, AbilityId::BowMark, now)),
            (AbilityId::DaggerDoubleSlash, match character { Some(_) => dagger_ms, None => 0u64 }),
        ]);
        v
    }
}

} // verus!
