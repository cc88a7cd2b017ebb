//! Paying for furniture at the showroom: the price and balance checks of a
//! checkout, and the units it puts in the buyer's bag.
use vstd::prelude::*;
use crate::bag::{fresh_entry, stack_into_bag, BagInsert, ItemInstance};

verus! {

/// Why a checkout was refused before any gold moved.
pub open spec fn payment_refusal(total: i64, expected_total: i64, balance: i64, expected_gold: i64) -> Option<Seq<char>> {
    if total != expected_total {
        Some("Prices changed. Review your basket before paying."@)
    } else if balance != expected_gold {
        Some("Your gold balance changed. Review your basket and try again."@)
    } else if balance < total {
        Some("Not enough gold."@)
    } else {
        None
    }
}

/// Check a checkout's money: the quoted `total` must be the one the buyer
/// saw, the balance the one they saw, and large enough. The balance left
/// after paying.
pub fn checkout_payment(total: i64, expected_total: i64, balance: i64, expected_gold: i64) -> (r: Result<i64, &'static str>)
    requires
        total >= 0,
    ensures
        match r {
            Ok(left) => payment_refusal(total, expected_total, balance, expected_gold) is None && left == balance - total,
            Err(e) => payment_refusal(total, expected_total, balance, expected_gold) == Some(e@),
        },
{
    if total != expected_total {
        return Err("Prices changed. Review your basket before paying.");
    }
    if balance != expected_gold {
        return Err("Your gold balance changed. Review your basket and try again.");
    }
    if balance < total {
        return Err("Not enough gold.");
    }
    Ok(balance - total)
}

/// The item definition of each unit of an order, line by line.
pub open spec fn order_units(lines: Seq<(String, u32)>) -> Seq<Seq<char>>
    decreases lines.len(),
{
    if lines.len() == 0 {
        Seq::empty()
    } else {
        order_units(lines.drop_last()) + Seq::new(lines.last().1 as nat, |k: int| lines.last().0@)
    }
}

/// A bought unit as it lands in the bag: one unlocked, plain unit of `def`
/// under instance id `id`.
pub open spec fn bought_unit(item: ItemInstance, def: Seq<char>, id: int) -> bool {
    &&& !item.locked
    &&& item.instance_id == id
    &&& item.item_def_id@ == def
    &&& item.quantity == 1
    &&& item.enchant == 0
    &&& item.cape_color is None
    &&& item.cape_texture is None
}

proof fn lemma_units_push(lines: Seq<(String, u32)>, def: String, q: u32)
    ensures
        order_units(lines.push((def, q))) == order_units(lines) + Seq::new(q as nat, |k: int| def@),
{
    assert(lines.push((def, q)).drop_last() =~= lines);
}

/// Put an order's units in the bag, each as its own entry (furniture does
/// not stack), under consecutive instance ids from `next_id`. The next
/// free id.
pub fn add_furniture_order(bag: &mut Vec<ItemInstance>, lines: &Vec<(String, u32)>, next_id: u64) -> (next: u64)
    requires
        next_id + order_units(lines@).len() <= u64::MAX,
    ensures
        next == next_id + order_units(lines@).len(),
        final(bag)@.len() == old(bag)@.len() + order_units(lines@).len(),
        final(bag)@.subrange(0, old(bag)@.len() as int) == old(bag)@,
        forall|k: int| 0 <= k < order_units(lines@).len() ==> bought_unit(
            #[trigger] final(bag)@[old(bag)@.len() + k], order_units(lines@)[k], next_id + k),
{
    let ghost start = bag@;
    let mut id = next_id;
    let mut i: usize = 0;
    while i < lines.len()
        invariant
            0 <= i <= lines@.len(),
            next_id + order_units(lines@).len() <= u64::MAX,
            order_units(lines@.take(i as int)).len() <= order_units(lines@).len(),
            id == next_id + order_units(lines@.take(i as int)).len(),
            bag@.len() == start.len() + order_units(lines@.take(i as int)).len(),
            bag@.subrange(0, start.len() as int) == start,
            forall|k: int| 0 <= k < order_units(lines@.take(i as int)).len() ==> bought_unit(
                #[trigger] bag@[start.len() + k], order_units(lines@.take(i as int))[k], next_id + k),
        decreases lines@.len() - i,
    {
        let ghost done = order_units(lines@.take(i as int));
        proof {
            assert(lines@.take(i as int + 1) =~= lines@.take(i as int).push(lines@[i as int]));
            lemma_units_push(lines@.take(i as int), lines@[i as int].0, lines@[i as int].1);
            assert(order_units(lines@.take(i as int + 1)).len() <= order_units(lines@).len()) by {
                lemma_units_prefix(lines@, i as int + 1);
            }
        }
        let def = lines[i].0.as_str();
        let q = lines[i].1;
        let mut n: u32 = 0;
        while n < q
            invariant
                0 <= n <= q,
                q == lines@[i as int].1,
                def@ == lines@[i as int].0@,
                done == order_units(lines@.take(i as int)),
                done.len() + q <= order_units(lines@).len(),
                next_id + order_units(lines@).len() <= u64::MAX,
                id == next_id + done.len() + n,
                bag@.len() == start.len() + done.len() + n,
                bag@.subrange(0, start.len() as int) == start,
                forall|k: int| 0 <= k < done.len() ==> bought_unit(#[trigger] bag@[start.len() + k], done[k], next_id + k),
                forall|k: int| 0 <= k < n ==> bought_unit(#[trigger] bag@[start.len() + done.len() + k], def@, next_id + done.len() + k),
            decreases q - n,
        {
            let ghost before = bag@;
            let insert = BagInsert::one(false, def, 0, id);
            let _ = stack_into_bag(bag, insert);
            proof {
                assert(bag@.subrange(0, before.len() as int) == before);
                assert forall|k: int| 0 <= k < before.len() implies bag@[k] == before[k] by {
                    assert(bag@.subrange(0, before.len() as int)[k] == bag@[k]);
                }
                assert(fresh_entry(bag@[before.len() + 0int], insert, (insert.first_instance_id + 0int) as u64, 1));
                assert(bag@.subrange(0, start.len() as int) =~= start) by {
                    assert forall|k: int| 0 <= k < start.len() implies bag@.subrange(0, start.len() as int)[k] == start[k] by {
                        assert(before.subrange(0, start.len() as int)[k] == start[k]);
                    }
                }
                assert forall|k: int| 0 <= k < done.len() implies bought_unit(#[trigger] bag@[start.len() + k], done[k], next_id + k) by {
                    assert(bag@[start.len() + k] == before[start.len() + k]);
                }
                assert forall|k: int| 0 <= k < n + 1 implies bought_unit(#[trigger] bag@[start.len() + done.len() + k], def@, next_id + done.len() + k) by {
                    if k < n {
                        assert(bag@[start.len() + done.len() + k] == before[start.len() + done.len() + k]);
                    }
                }
            }
            id = id + 1;
            n = n + 1;
        }
        proof {
            let now = order_units(lines@.take(i as int + 1));
            assert(now =~= done + Seq::new(q as nat, |k: int| lines@[i as int].0@));
            assert forall|k: int| 0 <= k < now.len() implies bought_unit(#[trigger] bag@[start.len() + k], now[k], next_id + k) by {
                if k >= done.len() {
                    let j = k - done.len();
                    assert(bag@[start.len() + done.len() + j] == bag@[start.len() + k]);
                }
            }
        }
        i = i + 1;
    }
    proof {
        assert(lines@.take(lines@.len() as int) =~= lines@);
    }
    id
}

/// The units of an order's first `n` lines are a prefix of all its units.
proof fn lemma_units_prefix(lines: Seq<(String, u32)>, n: int)
    requires
        0 <= n <= lines.len(),
    ensures
        order_units(lines.take(n)).len() <= order_units(lines).len(),
    decreases lines.len() - n,
{
    if n < lines.len() {
        lemma_units_prefix(lines, n + 1);
        assert(lines.take(n + 1) =~= lines.take(n).push(lines[n]));
        lemma_units_push(lines.take(n), lines[n].0, lines[n].1);
    } else {
        assert(lines.take(n) =~= lines);
    }
}

} // verus!
