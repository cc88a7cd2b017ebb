//! Dropping several bag stacks at once, all or nothing: every line is
//! checked against the bag before anything leaves it.
use vstd::prelude::*;
use crate::bag::{position_of, take_from, ItemInstance};
use crate::estate::{copy_item, find_in, BagLineItem};
use crate::keyed::StrSet;

verus! {

/// Why a batch drop is refused.
#[derive(PartialEq, Eq, Structural, Clone, Copy, Debug)]
pub enum DropRefusal {
    /// The units asked of one stack overflow a 32-bit count.
    InvalidQuantity,
    /// A line names no stack in the bag.
    NotFound,
    /// A line names a locked stack.
    Locked,
    /// More units are asked of a stack than it holds.
    NotEnough,
    /// A line names gear the dropping NPC is issued.
    IssuedGear,
}

/// The lines that ask for any units.
pub open spec fn asking_lines(lines: Seq<BagLineItem>) -> Seq<BagLineItem> {
    lines.filter(|l: BagLineItem| l.qty > 0)
}

/// The units `lines` ask of stack `id` in all.
pub open spec fn asked_units(lines: Seq<BagLineItem>, id: u64) -> int
    decreases lines.len(),
{
    if lines.len() == 0 {
        0
    } else {
        asked_units(lines.drop_last(), id) + if lines.last().instance_id == id { lines.last().qty as int } else { 0 }
    }
}

/// Some stack is asked more units than a 32-bit count holds.
pub open spec fn batch_overflows(lines: Seq<BagLineItem>) -> bool {
    exists|i: int| 0 <= i < lines.len() && asked_units(lines, #[trigger] lines[i].instance_id) > u32::MAX
}

#[verifier::opaque]
/// What is wrong with line `i`, if anything: no such stack, a locked one,
/// fewer units than all lines ask of it, or issued gear (`loadout`).
pub open spec fn drop_line_error(bag: Seq<ItemInstance>, loadout: Set<Seq<char>>, lines: Seq<BagLineItem>, i: int)
    -> Option<DropRefusal>
{
    match position_of(bag, lines[i].instance_id) {
        None => Some(DropRefusal::NotFound),
        Some(k) => if bag[k].locked {
            Some(DropRefusal::Locked)
        } else if asked_units(lines, lines[i].instance_id) > bag[k].quantity {
            Some(DropRefusal::NotEnough)
        } else if loadout.contains(bag[k].item_def_id@) {
            Some(DropRefusal::IssuedGear)
        } else {
            None
        },
    }
}

/// The first error among lines `0..n`.
pub open spec fn first_drop_error(bag: Seq<ItemInstance>, loadout: Set<Seq<char>>, lines: Seq<BagLineItem>, n: int)
    -> Option<DropRefusal>
    decreases n,
{
    if n <= 0 {
        None
    } else {
        match first_drop_error(bag, loadout, lines, n - 1) {
            Some(e) => Some(e),
            None => drop_line_error(bag, loadout, lines, n - 1),
        }
    }
}

/// Why dropping `lines` from `bag` is refused, if it is: lines asking for
/// nothing are ignored; then an overflowing batch, then the first bad line.
pub open spec fn drop_refusal(bag: Seq<ItemInstance>, loadout: Set<Seq<char>>, lines: Seq<BagLineItem>) -> Option<DropRefusal> {
    let asking = asking_lines(lines);
    if batch_overflows(asking) {
        Some(DropRefusal::InvalidQuantity)
    } else {
        first_drop_error(bag, loadout, asking, asking.len() as int)
    }
}

/// The bag after taking lines `0..n` in order, each from its stack.
pub open spec fn bag_after_drops(bag: Seq<ItemInstance>, lines: Seq<BagLineItem>, n: int) -> Seq<ItemInstance>
    decreases n,
{
    if n <= 0 {
        bag
    } else {
        let before = bag_after_drops(bag, lines, n - 1);
        match position_of(before, lines[n - 1].instance_id) {
            Some(k) => take_from(before, k, lines[n - 1].qty),
            None => before,
        }
    }
}

proof fn lemma_asked_prefix(lines: Seq<BagLineItem>, id: u64, k: int)
    requires
        0 <= k <= lines.len(),
    ensures
        asked_units(lines.subrange(0, k), id) <= asked_units(lines, id),
        asked_units(lines, id) >= 0,
    decreases lines.len() - k,
{
    if k == lines.len() {
        assert(lines.subrange(0, k) =~= lines);
        lemma_asked_nonneg(lines, id);
    } else {
        lemma_asked_prefix(lines.drop_last(), id, k);
        assert(lines.drop_last().subrange(0, k) =~= lines.subrange(0, k));
    }
}

proof fn lemma_asked_nonneg(lines: Seq<BagLineItem>, id: u64)
    ensures
        asked_units(lines, id) >= 0,
    decreases lines.len(),
{
    if lines.len() > 0 {
        lemma_asked_nonneg(lines.drop_last(), id);
    }
}

/// The units `lines` ask of stack `id`, `None` when past `u32::MAX`.
fn asked(lines: &Vec<BagLineItem>, id: u64) -> (r: Option<u32>)
    ensures
        match r {
            Some(n) => n == asked_units(lines@, id),
            None => asked_units(lines@, id) > u32::MAX,
        },
{
    let mut sum: u64 = 0;
    let mut i: usize = 0;
    while i < lines.len()
        invariant
            i <= lines@.len(),
            sum == asked_units(lines@.subrange(0, i as int), id),
            sum <= u32::MAX,
        decreases lines@.len() - i,
    {
        proof {
            assert(lines@.subrange(0, i + 1).drop_last() =~= lines@.subrange(0, i as int));
        }
        if lines[i].instance_id == id {
            sum = sum + lines[i].qty as u64;
        }
        if sum > 0xffff_ffff {
            proof {
                lemma_asked_prefix(lines@, id, i + 1);
            }
            return None;
        }
        i = i + 1;
    }
    proof {
        assert(lines@.subrange(0, lines@.len() as int) =~= lines@);
    }
    Some(sum as u32)
}

#[verifier::opaque]
/// The first `k` records of `d` are lines `0..k` of `a`: each with the
/// stack of `bag` it names, as it stands, and the units asked.
pub open spec fn records_stacks(bag: Seq<ItemInstance>, a: Seq<BagLineItem>, d: Seq<(ItemInstance, u32)>, k: int) -> bool {
    &&& d.len() == k
    &&& forall|m: int| #![trigger d[m]] #![trigger a[m]] 0 <= m < k ==> {
        &&& position_of(bag, a[m].instance_id) is Some
        &&& d[m].0 == bag[position_of(bag, a[m].instance_id)->0]
        &&& d[m].1 == a[m].qty
    }
}

proof fn lemma_records_push(bag: Seq<ItemInstance>, a: Seq<BagLineItem>, d: Seq<(ItemInstance, u32)>, k: int, item: ItemInstance)
    requires
        0 <= k < a.len(),
        records_stacks(bag, a, d, k),
        position_of(bag, a[k].instance_id) is Some,
        item == bag[position_of(bag, a[k].instance_id)->0],
    ensures
        records_stacks(bag, a, d.push((item, a[k].qty)), k + 1),
{
    reveal(records_stacks);
    let d2 = d.push((item, a[k].qty));
    assert(d2.len() == k + 1);
    assert(d2[k] == (item, a[k].qty));
    assert forall|m: int| #![trigger d2[m]] #![trigger a[m]] 0 <= m < k + 1 implies {
        &&& position_of(bag, a[m].instance_id) is Some
        &&& d2[m].0 == bag[position_of(bag, a[m].instance_id)->0]
        &&& d2[m].1 == a[m].qty
    } by {
        if m < k {
            assert(d2[m] == d[m]);
        }
    }
}

proof fn lemma_first_error_kept(bag: Seq<ItemInstance>, loadout: Set<Seq<char>>, lines: Seq<BagLineItem>, k: int, n: int)
    requires
        0 <= k < n,
        first_drop_error(bag, loadout, lines, k) is None,
        drop_line_error(bag, loadout, lines, k) is Some,
    ensures
        first_drop_error(bag, loadout, lines, n) == drop_line_error(bag, loadout, lines, k),
    decreases n,
{
    if n > k + 1 {
        lemma_first_error_kept(bag, loadout, lines, k, n - 1);
    }
}

/// Check line `k` of `lines` against `bag`, where `total` is what all the
/// lines ask of its stack: the stack as it stands, or the line's error.
#[verifier::rlimit(40)]
fn check_drop_line(bag: &Vec<ItemInstance>, loadout: &StrSet, lines: &Vec<BagLineItem>, k: usize, total: u32)
    -> (r: Result<ItemInstance, DropRefusal>)
    requires
        k < lines@.len(),
        total == asked_units(lines@, lines@[k as int].instance_id),
        loadout.wf(),
    ensures
        match r {
            Err(e) => drop_line_error(bag@, loadout@, lines@, k as int) == Some(e),
            Ok(item) => drop_line_error(bag@, loadout@, lines@, k as int) is None
                && position_of(bag@, lines@[k as int].instance_id) is Some
                && item == bag@[position_of(bag@, lines@[k as int].instance_id)->0],
        },
{
    reveal(drop_line_error);
    let idx = match find_in(bag, lines[k].instance_id) {
        Some(idx) => idx,
        None => return Err(DropRefusal::NotFound),
    };
    if bag[idx].locked {
        return Err(DropRefusal::Locked);
    }
    if total > bag[idx].quantity {
        return Err(DropRefusal::NotEnough);
    }
    if loadout.contains(bag[idx].item_def_id.as_str()) {
        return Err(DropRefusal::IssuedGear);
    }
    Ok(copy_item(&bag[idx]))
}

/// Drop `lines` from `bag`: check every line first (see `drop_refusal`),
/// and only when all pass take each line's units from its stack in order.
/// On success, each asking line comes back with the stack as it was and the
/// units taken; on refusal the bag is untouched.
pub fn drop_bag_lines(bag: &mut Vec<ItemInstance>, lines: &Vec<BagLineItem>, loadout: &StrSet)
    -> (r: Result<Vec<(ItemInstance, u32)>, DropRefusal>)
    requires
        loadout.wf(),
    ensures
        match r {
            Err(e) => drop_refusal(old(bag)@, loadout@, lines@) == Some(e) && final(bag)@ == old(bag)@,
            Ok(dropped) => {
                let asking = asking_lines(lines@);
                &&& drop_refusal(old(bag)@, loadout@, lines@) is None
                &&& final(bag)@ == bag_after_drops(old(bag)@, asking, asking.len() as int)
                &&& dropped@.len() == asking.len()
                &&& forall|i: int| #![trigger dropped@[i]] #![trigger asking[i]] 0 <= i < asking.len() ==> {
                    &&& position_of(old(bag)@, asking[i].instance_id) is Some
                    &&& dropped@[i].0 == old(bag)@[position_of(old(bag)@, asking[i].instance_id)->0]
                    &&& dropped@[i].1 == asking[i].qty
                }
            },
        },
{
    // The lines that ask for anything.
    let mut asking: Vec<BagLineItem> = Vec::new();
    let mut i: usize = 0;
    while i < lines.len()
        invariant
            i <= lines@.len(),
            asking@ == lines@.subrange(0, i as int).filter(|l: BagLineItem| l.qty > 0),
        decreases lines@.len() - i,
    {
        proof {
            assert(lines@.subrange(0, i + 1) =~= lines@.subrange(0, i as int).push(lines@[i as int]));
            lines@.subrange(0, i as int).lemma_filter_push(lines@[i as int], |l: BagLineItem| l.qty > 0);
        }
        if lines[i].qty > 0 {
            asking.push(BagLineItem { instance_id: lines[i].instance_id, qty: lines[i].qty });
        }
        i = i + 1;
    }
    proof {
        assert(lines@.subrange(0, lines@.len() as int) =~= lines@);
    }
    let ghost a = asking@;
    // The batch must count.
    let mut totals: Vec<u32> = Vec::new();
    let mut j: usize = 0;
    while j < asking.len()
        invariant
            a == asking@,
            a == asking_lines(lines@),
            j <= a.len(),
            totals@.len() == j,
            forall|k: int| 0 <= k < j ==> #[trigger] totals@[k] == asked_units(a, a[k].instance_id),
        decreases a.len() - j,
    {
        match asked(&asking, asking[j].instance_id) {
            Some(n) => totals.push(n),
            None => {
                proof {
                    assert(asked_units(a, a[j as int].instance_id) > u32::MAX);
                    assert(batch_overflows(a));
                }
                return Err(DropRefusal::InvalidQuantity);
            },
        }
        j = j + 1;
    }
    proof {
        assert(!batch_overflows(a)) by {
            if batch_overflows(a) {
                let k = choose|k: int| 0 <= k < a.len() && asked_units(a, #[trigger] a[k].instance_id) > u32::MAX;
                assert(totals@[k] == asked_units(a, a[k].instance_id));
            }
        }
    }
    // Every line against the bag, before anything leaves it.
    let mut dropped: Vec<(ItemInstance, u32)> = Vec::new();
    let mut k: usize = 0;
    proof {
        reveal(records_stacks);
    }
    while k < asking.len()
        invariant
            a == asking@,
            a == asking_lines(lines@),
            !batch_overflows(a),
            bag@ == old(bag)@,
            loadout.wf(),
            k <= a.len(),
            totals@.len() == a.len(),
            forall|m: int| 0 <= m < a.len() ==> #[trigger] totals@[m] == asked_units(a, a[m].instance_id),
            first_drop_error(old(bag)@, loadout@, a, k as int) is None,
            records_stacks(old(bag)@, a, dropped@, k as int),
        decreases a.len() - k,
    {
        let item = match check_drop_line(bag, loadout, &asking, k, totals[k]) {
            Ok(item) => item,
            Err(e) => {
                proof {
                    lemma_first_error_kept(old(bag)@, loadout@, a, k as int, a.len() as int);
                }
                return Err(e);
            },
        };
        proof {
            lemma_records_push(old(bag)@, a, dropped@, k as int, item);
        }
        dropped.push((item, asking[k].qty));
        k = k + 1;
    }
    // All pass: take each line's units in order.
    let mut n: usize = 0;
    while n < asking.len()
        invariant
            a == asking@,
            n <= a.len(),
            bag@ == bag_after_drops(old(bag)@, a, n as int),
            a == asking_lines(lines@),
            !batch_overflows(a),
            first_drop_error(old(bag)@, loadout@, a, a.len() as int) is None,
            records_stacks(old(bag)@, a, dropped@, a.len() as int),
        decreases a.len() - n,
    {
        let id = asking[n].instance_id;
        let qty = asking[n].qty;
        match find_in(bag, id) {
            Some(idx) => {
                if bag[idx].quantity > qty {
                    let item = copy_item(&bag[idx]);
                    let left = item.quantity - qty;
                    bag.set(idx, ItemInstance { quantity: left, ..item });
                } else {
                    bag.remove(idx);
                }
            },
            None => {},
        }
        n = n + 1;
    }
    proof {
        reveal(records_stacks);
    }
    Ok(dropped)
}

} // verus!
