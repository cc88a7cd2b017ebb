//! Resting in a bed: which objects are beds, and when a player lying in one
//! starts regaining mana twice as fast.
use vstd::prelude::*;
use crate::keyed::IdMap;
use crate::text::owned;
use vstd::string::*;

verus! {

/// The object types a player can lie down in.
pub open spec fn bed_kind(t: Seq<char>) -> bool {
    t == "bed"@ || t == "rustic_bed"@ || t == "furniture_bed"@ || t == "furniture_rustic_bed"@
}

pub fn is_bed(object_type: &str) -> (r: bool)
    ensures
        r == bed_kind(object_type@),
{
    let t = owned(object_type);
    t.eq(&owned("bed")) || t.eq(&owned("rustic_bed")) || t.eq(&owned("furniture_bed"))
        || t.eq(&owned("furniture_rustic_bed"))
}

/// How long from `b` to `a`, zero when `b` is later.
pub open spec fn since(a: u64, b: u64) -> int {
    if a >= b { a - b } else { 0 }
}

/// When a rest begun at `now` starts counting: once the player has been out
/// of combat for `out_of_combat_ms`.
pub open spec fn rest_start(now: u64, last_combat_at: u64, out_of_combat_ms: u64) -> int {
    let s = since(now, last_combat_at);
    now + if out_of_combat_ms >= s { out_of_combat_ms - s } else { 0 }
}

/// The players resting in a bed, with the moment their rest counts from.
pub struct BedRest {
    pub started: IdMap<u64>,
}

impl BedRest {
    pub open spec fn wf(&self) -> bool {
        self.started.wf()
    }

    pub fn new() -> (b: Self)
        ensures
            b.wf(),
            b.started@ == Map::<u128, u64>::empty(),
    {
        BedRest { started: IdMap::new() }
    }

    /// `player`'s pose was checked at `now`: in a valid bed the rest counts
    /// from when the player is out of combat; otherwise it is forgotten.
    pub fn update(&mut self, player: u128, valid: bool, now: u64, last_combat_at: u64, out_of_combat_ms: u64)
        requires
            old(self).wf(),
            valid ==> now + out_of_combat_ms <= u64::MAX,
        ensures
            final(self).wf(),
            final(self).started@ == if valid {
                old(self).started@.insert(player, rest_start(now, last_combat_at, out_of_combat_ms) as u64)
            } else {
                old(self).started@.remove(player)
            },
    {
        if valid {
            let wait = out_of_combat_ms.saturating_sub(now.saturating_sub(last_combat_at));
            self.started.insert(player, now + wait);
        } else {
            let _ = self.started.remove(player);
        }
    }

    /// The mana regeneration multiplier of `player` at `now`: 2 once a
    /// player lying in a bed (`in_bed`) in a valid pose has rested
    /// `interval_ms`, otherwise 1. An invalid pose in a bed forgets the rest.
    pub fn multiplier(&mut self, player: u128, in_bed: bool, valid: bool, now: u64, interval_ms: u64) -> (m: u32)
        requires
            old(self).wf(),
        ensures
            final(self).wf(),
            final(self).started@ == if in_bed && !valid { old(self).started@.remove(player) } else { old(self).started@ },
            m == if in_bed && valid && old(self).started@.contains_key(player)
                && since(now, old(self).started@[player]) >= interval_ms { 2u32 } else { 1u32 },
    {
        if !in_bed {
            return 1;
        }
        if !valid {
            let _ = self.started.remove(player);
            return 1;
        }
        match self.started.get(player) {
            Some(start) => if now.saturating_sub(*start) >= interval_ms { 2 } else { 1 },
            None => 1,
        }
    }

    /// `player` got up: the rest is over.
    pub fn stop(&mut self, player: u128)
        requires
            old(self).wf(),
        ensures
            final(self).wf(),
            final(self).started@ == old(self).started@.remove(player),
    {
        let _ = self.started.remove(player);
    }
}

} // verus!
