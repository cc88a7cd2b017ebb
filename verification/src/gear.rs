//! Worn gear: moving items between the bag and the equipment slots, with a
//! two-handed weapon owning the off hand.
use vstd::prelude::*;
use crate::bag::{find_instance, position_of, ItemInstance};

verus! {

/// The slot a weapon is wielded in.
pub const MAIN_HAND: u8 = 0;
/// The slot a shield, torch or second item is held in.
pub const OFF_HAND: u8 = 1;

/// The items worn, by slot.
pub struct Equipped {
    pub slots: Vec<(u8, ItemInstance)>,
}

impl Equipped {
    /// No slot appears twice.
    pub open spec fn wf(&self) -> bool {
        forall|i: int, j: int| 0 <= i < j < self.slots@.len() ==> #[trigger] self.slots@[i].0 != #[trigger] self.slots@[j].0
    }

    pub open spec fn view(&self) -> Map<u8, ItemInstance> {
        Map::new(
            |s: u8| exists|i: int| 0 <= i < self.slots@.len() && #[trigger] self.slots@[i].0 == s,
            |s: u8| self.slots@[choose|i: int| 0 <= i < self.slots@.len() && #[trigger] self.slots@[i].0 == s].1,
        )
    }

    pub fn new() -> (e: Self)
        ensures
            e.wf(),
            e@ == Map::<u8, ItemInstance>::empty(),
    {
        let e = Equipped { slots: Vec::new() };
        assert(e@ =~= Map::empty());
        e
    }

    fn index_of(&self, slot: u8) -> (r: Option<usize>)
        requires
            self.wf(),
        ensures
            match r {
                Some(i) => i < self.slots@.len() && self.slots@[i as int].0 == slot
                    && self@.contains_key(slot) && self@[slot] == self.slots@[i as int].1,
                None => !self@.contains_key(slot),
            },
    {
        let mut i: usize = 0;
        while i < self.slots.len()
            invariant
                i <= self.slots@.len(),
                self.wf(),
                forall|j: int| 0 <= j < i ==> #[trigger] self.slots@[j].0 != slot,
            decreases self.slots@.len() - i,
        {
            if self.slots[i].0 == slot {
                proof {
                    let c = choose|c: int| 0 <= c < self.slots@.len() && #[trigger] self.slots@[c].0 == slot;
                    if c != i {
                        if c < i { assert(self.slots@[c].0 != slot); }
                        else { assert(self.slots@[i as int].0 != self.slots@[c].0); }
                    }
                }
                return Some(i);
            }
            i = i + 1;
        }
        None
    }

    /// Whether something is worn in `slot`.
    pub fn occupied(&self, slot: u8) -> (r: bool)
        requires
            self.wf(),
        ensures
            r == self@.contains_key(slot),
    {
        self.index_of(slot).is_some()
    }

    /// Take off what is worn in `slot`, if anything.
    pub fn take(&mut self, slot: u8) -> (r: Option<ItemInstance>)
        requires
            old(self).wf(),
        ensures
            final(self).wf(),
            final(self)@ == old(self)@.remove(slot),
            r == if old(self)@.contains_key(slot) { Some(old(self)@[slot]) } else { None::<ItemInstance> },
    {
        match self.index_of(slot) {
            None => {
                assert(self@ =~= old(self)@.remove(slot));
                None
            },
            Some(i) => {
                let ghost o = self.slots@;
                let (_, item) = self.slots.remove(i);
                proof {
                    assert forall|a: int| 0 <= a < self.slots@.len() implies #[trigger] self.slots@[a] == o[if a < i { a } else { a + 1 }] by {}
                    assert forall|a: int, b: int| 0 <= a < b < self.slots@.len() implies #[trigger] self.slots@[a].0 != #[trigger] self.slots@[b].0 by {
                        let a2 = if a < i { a } else { a + 1 };
                        let b2 = if b < i { b } else { b + 1 };
                        assert(o[a2].0 != o[b2].0);
                    }
                    let w = old(self)@.remove(slot);
                    assert forall|k: u8| #[trigger] self@.contains_key(k) <==> w.contains_key(k) by {
                        if self@.contains_key(k) {
                            let c = choose|c: int| 0 <= c < self.slots@.len() && #[trigger] self.slots@[c].0 == k;
                            let c2 = if c < i { c } else { c + 1 };
                            assert(o[c2].0 == k);
                            assert(o[c2].0 != o[i as int].0);
                        }
                        if w.contains_key(k) {
                            let c = choose|c: int| 0 <= c < o.len() && #[trigger] o[c].0 == k;
                            assert(c != i);
                            let c2 = if c < i { c } else { c - 1 };
                            assert(self.slots@[c2].0 == k);
                        }
                    }
                    assert forall|k: u8| #[trigger] self@.contains_key(k) implies self@[k] == w[k] by {
                        let c = choose|c: int| 0 <= c < self.slots@.len() && #[trigger] self.slots@[c].0 == k;
                        let c2 = if c < i { c } else { c + 1 };
                        let d = choose|d: int| 0 <= d < o.len() && #[trigger] o[d].0 == k;
                        assert(o[c2].0 == k);
                        if c2 != d {
                            if c2 < d { assert(o[c2].0 != o[d].0); } else { assert(o[d].0 != o[c2].0); }
                        }
                    }
                    assert(self@ =~= w);
                }
                Some(item)
            },
        }
    }

    /// Wear `item` in `slot`; what was worn there comes back.
    pub fn put(&mut self, slot: u8, item: ItemInstance) -> (r: Option<ItemInstance>)
        requires
            old(self).wf(),
        ensures
            final(self).wf(),
            final(self)@ == old(self)@.insert(slot, item),
            r == if old(self)@.contains_key(slot) { Some(old(self)@[slot]) } else { None::<ItemInstance> },
    {
        let ghost iv = item;
        let was = self.take(slot);
        let ghost midv = self@;
        let ghost mid = self.slots@;
        proof {
            assert(midv == old(self)@.remove(slot));
            assert(!midv.contains_key(slot));
            assert forall|a: int| 0 <= a < mid.len() implies (#[trigger] mid[a]).0 != slot by {
                assert(midv.contains_key(mid[a].0));
            }
        }
        self.slots.push((slot, item));
        proof {
            let n = mid.len() as int;
            assert(self.slots@[n] == (slot, iv));
            assert forall|a: int| 0 <= a < n implies #[trigger] self.slots@[a] == mid[a] by {}
            assert forall|a: int, b: int| 0 <= a < b < self.slots@.len() implies #[trigger] self.slots@[a].0 != #[trigger] self.slots@[b].0 by {
                if b == n {
                    assert(self.slots@[a] == mid[a]);
                    assert(mid[a].0 != slot);
                } else {
                    assert(self.slots@[a] == mid[a] && self.slots@[b] == mid[b]);
                }
            }
            let w = old(self)@.insert(slot, iv);
            assert forall|k: u8| #[trigger] self@.contains_key(k) <==> w.contains_key(k) by {
                if self@.contains_key(k) && k != slot {
                    let c = choose|c: int| 0 <= c < self.slots@.len() && #[trigger] self.slots@[c].0 == k;
                    assert(c < n);
                    assert(mid[c].0 == k);
                    assert(midv.contains_key(k));
                }
                if w.contains_key(k) && k != slot {
                    assert(midv.contains_key(k));
                    let c = choose|c: int| 0 <= c < mid.len() && #[trigger] mid[c].0 == k;
                    assert(self.slots@[c].0 == k);
                }
                if k == slot {
                    assert(self.slots@[n].0 == k);
                }
            }
            assert forall|k: u8| #[trigger] self@.contains_key(k) implies self@[k] == w[k] by {
                let c = choose|c: int| 0 <= c < self.slots@.len() && #[trigger] self.slots@[c].0 == k;
                if k == slot {
                    if c < n { assert(mid[c].0 == slot); }
                } else {
                    assert(c < n);
                    assert(mid[c].0 == k);
                    assert(midv.contains_key(k));
                    let d = choose|d: int| 0 <= d < mid.len() && #[trigger] mid[d].0 == k;
                    assert(midv[k] == mid[d].1);
                    assert(self.slots@[d].0 == k);
                    if c != d {
                        if c < d { assert(self.slots@[c].0 != self.slots@[d].0); } else { assert(self.slots@[d].0 != self.slots@[c].0); }
                    }
                    assert(midv[k] == old(self)@[k]);
                }
            }
            assert(self@ =~= w);
        }
        was
    }
}

/// Why an item could not be put on.
#[derive(PartialEq, Eq, Structural)]
pub enum EquipError {
    NotInBag,
    NotEquippable,
    BothHands,
}

impl EquipError {
    /// What the player is told.
    pub fn message(&self) -> (m: &'static str)
        ensures
            m@ == match self {
                EquipError::NotInBag => "Item not found in bag"@,
                EquipError::NotEquippable => "This item cannot be equipped"@,
                EquipError::BothHands => "Both hands are on your weapon"@,
            },
    {
        match self {
            EquipError::NotInBag => "Item not found in bag",
            EquipError::NotEquippable => "This item cannot be equipped",
            EquipError::BothHands => "Both hands are on your weapon",
        }
    }
}

/// The slot an item meant for `slot` goes to: `slot` when free, else its
/// `alternate` (a second ring finger) when that one is free, else `slot`.
pub open spec fn target_slot(worn: Map<u8, ItemInstance>, slot: u8, alternate: Option<u8>) -> u8 {
    if !worn.contains_key(slot) {
        slot
    } else {
        match alternate {
            Some(a) => if !worn.contains_key(a) { a } else { slot },
            None => slot,
        }
    }
}

/// The bag without entry `i`.
pub open spec fn without(bag: Seq<ItemInstance>, i: int) -> Seq<ItemInstance> {
    bag.subrange(0, i) + bag.subrange(i + 1, bag.len() as int)
}

/// Bag, worn gear and whether the off hand was emptied after putting on
/// bag entry `i` in `target`: what was worn there goes to the bag, and a
/// two-handed weapon in the main hand sends the off hand's item after it.
pub open spec fn equip_model(bag: Seq<ItemInstance>, worn: Map<u8, ItemInstance>, i: int, target: u8, two_handed: bool)
    -> (Seq<ItemInstance>, Map<u8, ItemInstance>, bool) {
    let bag1 = without(bag, i);
    let bag2 = if worn.contains_key(target) { bag1.push(worn[target]) } else { bag1 };
    let worn1 = worn.insert(target, bag[i]);
    if two_handed && target == MAIN_HAND && worn1.contains_key(OFF_HAND) {
        (bag2.push(worn1[OFF_HAND]), worn1.remove(OFF_HAND), true)
    } else {
        (bag2, worn1, false)
    }
}

/// Put on bag item `instance_id`. Its definition's slot is `slot` (`None`
/// when it cannot be worn) with `alternate` the slot it may take instead,
/// `two_handed` whether it takes both hands, and `main_two_handed` whether
/// the weapon wielded now does. Refused, changing nothing, when the item is
/// not in the bag, cannot be worn, or is for the off hand while a
/// two-handed weapon is wielded. Returns the slot it went to and whether
/// the off hand was emptied.
#[verifier::rlimit(40)]
pub fn equip(bag: &mut Vec<ItemInstance>, worn: &mut Equipped, instance_id: u64, slot: Option<u8>, alternate: Option<u8>,
    two_handed: bool, main_two_handed: bool) -> (r: Result<(u8, bool), EquipError>)
    requires
        old(worn).wf(),
    ensures
        final(worn).wf(),
        match position_of(old(bag)@, instance_id) {
            None => r == Err::<(u8, bool), EquipError>(EquipError::NotInBag),
            Some(i) => match slot {
                None => r == Err::<(u8, bool), EquipError>(EquipError::NotEquippable),
                Some(s) => if s == OFF_HAND && main_two_handed {
                    r == Err::<(u8, bool), EquipError>(EquipError::BothHands)
                } else {
                    let target = target_slot(old(worn)@, s, alternate);
                    let m = equip_model(old(bag)@, old(worn)@, i, target, two_handed);
                    &&& r == Ok::<(u8, bool), EquipError>((target, m.2))
                    &&& final(bag)@ == m.0
                    &&& final(worn)@ == m.1
                },
            },
        },
        r is Err ==> final(bag)@ == old(bag)@ && final(worn)@ == old(worn)@,
{
    let idx = match find_instance(bag, instance_id) {
        Some(i) => i,
        None => return Err(EquipError::NotInBag),
    };
    let s = match slot {
        None => return Err(EquipError::NotEquippable),
        Some(s) => s,
    };
    if s == OFF_HAND && main_two_handed {
        return Err(EquipError::BothHands);
    }
    let target = if worn.occupied(s) {
        match alternate {
            Some(a) => if !worn.occupied(a) { a } else { s },
            None => s,
        }
    } else {
        s
    };
    let ghost b0 = bag@;
    let item = bag.remove(idx);
    proof {
        assert(bag@ =~= without(b0, idx as int));
    }
    let was = worn.put(target, item);
    match was {
        Some(old_item) => bag.push(old_item),
        None => {},
    }
    let mut cleared = false;
    if two_handed && target == MAIN_HAND {
        match worn.take(OFF_HAND) {
            Some(displaced) => {
                bag.push(displaced);
                cleared = true;
            },
            None => {},
        }
    }
    Ok((target, cleared))
}

/// Take off what is worn in `slot` into the bag; false, changing nothing,
/// when the slot is empty.
pub fn unequip(bag: &mut Vec<ItemInstance>, worn: &mut Equipped, slot: u8) -> (found: bool)
    requires
        old(worn).wf(),
    ensures
        final(worn).wf(),
        found == old(worn)@.contains_key(slot),
        final(worn)@ == old(worn)@.remove(slot),
        final(bag)@ == if found { old(bag)@.push(old(worn)@[slot]) } else { old(bag)@ },
{
    match worn.take(slot) {
        Some(item) => {
            bag.push(item);
            true
        },
        None => false,
    }
}

} // verus!
