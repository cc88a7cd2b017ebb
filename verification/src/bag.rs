//! A player's bag: stacking inserts, lowest-enchant-first draws and
//! single-unit consumption.
use vstd::prelude::*;
use crate::text::{ascii_lower, lower_char, opt_string_clone, opt_string_eq, opt_view, owned, push_char};
use vstd::string::*;
use crate::keyed::StrMap;

verus! {

/// One entry of a bag: a stack of `quantity` units of one item definition.
pub struct ItemInstance {
    pub locked: bool,
    pub instance_id: u64,
    pub item_def_id: String,
    pub quantity: u32,
    pub enchant: i32,
    pub cape_color: Option<String>,
    pub cape_texture: Option<String>,
}

/// One unit-insert request: `quantity` units of one def at one enchant level,
/// backed by instance ids starting at `first_instance_id`.
pub struct BagInsert<'a> {
    pub locked: bool,
    pub stackable: bool,
    pub item_def_id: &'a str,
    pub enchant: i32,
    pub cape_color: Option<String>,
    pub cape_texture: Option<String>,
    pub first_instance_id: u64,
    pub quantity: u32,
}

/// Where an insert went and how many instance ids it used.
pub struct BagInsertResult {
    pub ids_used: u64,
    pub first_instance_id: Option<u64>,
}

/// `item` is a stack that units of `insert` merge into: same def, lock,
/// enchant and cape skin.
pub open spec fn stack_matches(insert: BagInsert, item: ItemInstance) -> bool {
    &&& item.item_def_id@ == insert.item_def_id@
    &&& item.locked == insert.locked
    &&& item.enchant == insert.enchant
    &&& opt_view(item.cape_color) == opt_view(insert.cape_color)
    &&& opt_view(item.cape_texture) == opt_view(insert.cape_texture)
}

/// The index of the first stack in `bag` that `insert` merges into.
pub open spec fn first_match(bag: Seq<ItemInstance>, insert: BagInsert) -> Option<int> {
    if exists|i: int| 0 <= i < bag.len() && stack_matches(insert, #[trigger] bag[i]) {
        let i = choose|i: int| 0 <= i < bag.len() && stack_matches(insert, #[trigger] bag[i])
            && forall|j: int| 0 <= j < i ==> !stack_matches(insert, #[trigger] bag[j]);
        Some(i)
    } else {
        None
    }
}

/// `item` is a fresh entry carrying `insert`'s state, with the given id and
/// quantity.
pub open spec fn fresh_entry(item: ItemInstance, insert: BagInsert, id: u64, quantity: u32) -> bool {
    &&& item.locked == insert.locked
    &&& item.instance_id == id
    &&& item.item_def_id@ == insert.item_def_id@
    &&& item.quantity == quantity
    &&& item.enchant == insert.enchant
    &&& opt_view(item.cape_color) == opt_view(insert.cape_color)
    &&& opt_view(item.cape_texture) == opt_view(insert.cape_texture)
}

/// Any stack that matches has a first match.
proof fn lemma_first_match(bag: Seq<ItemInstance>, insert: BagInsert, k: int)
    requires
        0 <= k < bag.len(),
        stack_matches(insert, bag[k]),
    ensures
        exists|i: int| 0 <= i < bag.len() && stack_matches(insert, #[trigger] bag[i])
            && forall|j: int| 0 <= j < i ==> !stack_matches(insert, #[trigger] bag[j]),
    decreases k,
{
    if exists|j: int| 0 <= j < k && stack_matches(insert, #[trigger] bag[j]) {
        let j = choose|j: int| 0 <= j < k && stack_matches(insert, #[trigger] bag[j]);
        lemma_first_match(bag, insert, j);
    }
}

/// What `first_match` finds is the first stack `insert` merges into.
pub proof fn lemma_first_match_props(bag: Seq<ItemInstance>, insert: BagInsert)
    ensures
        match first_match(bag, insert) {
            Some(i) => 0 <= i < bag.len() && stack_matches(insert, bag[i])
                && forall|j: int| 0 <= j < i ==> !stack_matches(insert, #[trigger] bag[j]),
            None => forall|j: int| 0 <= j < bag.len() ==> !stack_matches(insert, #[trigger] bag[j]),
        },
{
    if exists|i: int| 0 <= i < bag.len() && stack_matches(insert, #[trigger] bag[i]) {
        let k = choose|i: int| 0 <= i < bag.len() && stack_matches(insert, #[trigger] bag[i]);
        lemma_first_match(bag, insert, k);
    }
}

impl<'a> BagInsert<'a> {
    /// Whether `item` is a stack these units merge into.
    pub fn matches_stack(&self, item: &ItemInstance) -> (m: bool)
        ensures
            m == stack_matches(*self, *item),
    {
        let def = owned(self.item_def_id);
        item.item_def_id.eq(&def) && item.locked == self.locked && item.enchant == self.enchant
            && opt_string_eq(&item.cape_color, &self.cape_color)
            && opt_string_eq(&item.cape_texture, &self.cape_texture)
    }

    /// A single unlocked, undyed unit.
    pub fn one(stackable: bool, item_def_id: &'a str, enchant: i32, first_instance_id: u64) -> (r: Self)
        ensures
            r.stackable == stackable,
            !r.locked,
            r.item_def_id == item_def_id,
            r.enchant == enchant,
            r.first_instance_id == first_instance_id,
            r.quantity == 1,
            r.cape_color is None,
            r.cape_texture is None,
    {
        BagInsert {
            stackable,
            locked: false,
            item_def_id,
            enchant,
            first_instance_id,
            quantity: 1,
            cape_color: None,
            cape_texture: None,
        }
    }

    /// The same insert carrying a cape's dye and print.
    pub fn with_cape_skin(self, cape_color: Option<String>, cape_texture: Option<String>) -> (r: Self)
        ensures
            r == (BagInsert { cape_color, cape_texture, ..self }),
    {
        BagInsert { cape_color, cape_texture, ..self }
    }
}

/// The index of the first stack `insert` merges into, if any.
fn find_stack(bag: &Vec<ItemInstance>, insert: &BagInsert) -> (r: Option<usize>)
    ensures
        match r {
            Some(i) => first_match(bag@, *insert) == Some(i as int) && i < bag.len(),
            None => first_match(bag@, *insert) is None,
        },
{
    let mut i: usize = 0;
    while i < bag.len()
        invariant
            i <= bag.len(),
            forall|j: int| 0 <= j < i ==> !stack_matches(*insert, #[trigger] bag@[j]),
        decreases bag.len() - i,
    {
        if insert.matches_stack(&bag[i]) {
            proof {
                let ghost k = choose|k: int| 0 <= k < bag@.len() && stack_matches(*insert, #[trigger] bag@[k])
                    && forall|j: int| 0 <= j < k ==> !stack_matches(*insert, #[trigger] bag@[j]);
                assert(stack_matches(*insert, bag@[i as int]));
                if k < i {
                } else if k > i {
                    assert(!stack_matches(*insert, bag@[i as int]));
                }
            }
            return Some(i);
        }
        i = i + 1;
    }
    None
}

/// Whether inserting `insert` would overflow the quantity of the stack it
/// merges into.
pub fn stack_would_overflow(bag: &Vec<ItemInstance>, insert: &BagInsert) -> (r: bool)
    ensures
        r == (insert.stackable && exists|i: int| 0 <= i < bag.len() && stack_matches(*insert, #[trigger] bag@[i])
            && bag@[i].quantity + insert.quantity > u32::MAX),
{
    if !insert.stackable {
        return false;
    }
    let mut i: usize = 0;
    while i < bag.len()
        invariant
            i <= bag.len(),
            insert.stackable,
            forall|j: int| 0 <= j < i ==> !(stack_matches(*insert, #[trigger] bag@[j])
                && bag@[j].quantity + insert.quantity > u32::MAX),
        decreases bag.len() - i,
    {
        if insert.matches_stack(&bag[i]) && bag[i].quantity > u32::MAX - insert.quantity {
            return true;
        }
        i = i + 1;
    }
    false
}

/// What inserting `insert` into `before` gives: `after`, and the insert's
/// result. Nothing changes for zero units. A stackable insert adds its units
/// to the first matching stack, or else opens one new stack under
/// `first_instance_id`; a non-stackable one appends one entry per unit under
/// consecutive ids.
pub open spec fn stacked(before: Seq<ItemInstance>, insert: BagInsert, after: Seq<ItemInstance>, r: BagInsertResult) -> bool {
    &&& (insert.quantity == 0 ==> after == before && r.ids_used == 0 && r.first_instance_id is None)
    &&& (insert.quantity > 0 && insert.stackable ==> match first_match(before, insert) {
        Some(i) => {
            &&& after == before.update(i, ItemInstance { quantity: (before[i].quantity + insert.quantity) as u32, ..before[i] })
            &&& r.ids_used == 0
            &&& r.first_instance_id == Some(before[i].instance_id)
        },
        None => {
            &&& after.len() == before.len() + 1
            &&& after.drop_last() == before
            &&& fresh_entry(after.last(), insert, insert.first_instance_id, insert.quantity)
            &&& r.ids_used == 1
            &&& r.first_instance_id == Some(insert.first_instance_id)
        },
    })
    &&& (insert.quantity > 0 && !insert.stackable ==> {
        &&& after.len() == before.len() + insert.quantity
        &&& after.subrange(0, before.len() as int) == before
        &&& forall|k: int| 0 <= k < insert.quantity ==> fresh_entry(
            #[trigger] after[before.len() + k], insert, (insert.first_instance_id + k) as u64, 1)
        &&& r.ids_used == insert.quantity
        &&& r.first_instance_id == Some(insert.first_instance_id)
    })
}

/// Merge matching stacks and report the destination and allocated ids.
///
/// Nothing changes for zero units. A stackable insert adds its units to the
/// first matching stack, or else opens one new stack under
/// `first_instance_id`; a non-stackable one appends one entry per unit under
/// consecutive ids.
pub fn stack_into_bag(bag: &mut Vec<ItemInstance>, insert: BagInsert) -> (r: BagInsertResult)
    requires
        insert.stackable ==> match first_match(old(bag)@, insert) {
            Some(i) => old(bag)@[i].quantity + insert.quantity <= u32::MAX,
            None => true,
        },
        !insert.stackable ==> insert.first_instance_id + insert.quantity <= u64::MAX,
    ensures
        stacked(old(bag)@, insert, final(bag)@, r),
{
    if insert.quantity == 0 {
        return BagInsertResult { ids_used: 0, first_instance_id: None };
    }
    if insert.stackable {
        if let Some(i) = find_stack(bag, &insert) {
            let old_item = &bag[i];
            let item = ItemInstance {
                locked: old_item.locked,
                instance_id: old_item.instance_id,
                item_def_id: old_item.item_def_id.clone(),
                quantity: old_item.quantity + insert.quantity,
                enchant: old_item.enchant,
                cape_color: opt_string_clone(&old_item.cape_color),
                cape_texture: opt_string_clone(&old_item.cape_texture),
            };
            let id = item.instance_id;
            bag.set(i, item);
            return BagInsertResult { ids_used: 0, first_instance_id: Some(id) };
        }
        let first = insert.first_instance_id;
        bag.push(ItemInstance {
            locked: insert.locked,
            instance_id: first,
            item_def_id: owned(insert.item_def_id),
            quantity: insert.quantity,
            enchant: insert.enchant,
            cape_color: insert.cape_color,
            cape_texture: insert.cape_texture,
        });
        proof {
            assert(bag@.drop_last() =~= old(bag)@);
        }
        return BagInsertResult { ids_used: 1, first_instance_id: Some(first) };
    }
    let quantity = insert.quantity as u64;
    let mut offset: u64 = 0;
    while offset < quantity
        invariant
            quantity == insert.quantity,
            insert.first_instance_id + quantity <= u64::MAX,
            offset <= quantity,
            bag@.len() == old(bag)@.len() + offset,
            bag@.subrange(0, old(bag)@.len() as int) == old(bag)@,
            forall|k: int| 0 <= k < offset ==> fresh_entry(
                #[trigger] bag@[old(bag)@.len() + k], insert, (insert.first_instance_id + k) as u64, 1),
        decreases quantity - offset,
    {
        let ghost prev = bag@;
        bag.push(ItemInstance {
            locked: insert.locked,
            instance_id: insert.first_instance_id + offset,
            item_def_id: owned(insert.item_def_id),
            quantity: 1,
            enchant: insert.enchant,
            cape_color: opt_string_clone(&insert.cape_color),
            cape_texture: opt_string_clone(&insert.cape_texture),
        });
        proof {
            assert(bag@.subrange(0, old(bag)@.len() as int) =~= old(bag)@);
            assert forall|k: int| 0 <= k < offset + 1 implies fresh_entry(
                #[trigger] bag@[old(bag)@.len() + k], insert, (insert.first_instance_id + k) as u64, 1) by {
                if k < offset {
                    assert(bag@[old(bag)@.len() + k] == prev[old(bag)@.len() + k]);
                }
            }
        }
        offset = offset + 1;
    }
    BagInsertResult { ids_used: quantity, first_instance_id: Some(insert.first_instance_id) }
}

/// Units that left together in one draw, with the per-instance state they
/// carry.
pub struct Draw {
    pub enchant: i32,
    pub cape_color: Option<String>,
    pub cape_texture: Option<String>,
    pub quantity: u32,
}

/// `item` may be drawn for `def`: same definition, and unlocked unless
/// locks are allowed.
pub open spec fn drawable(item: ItemInstance, def: Seq<char>, allow_locked: bool) -> bool {
    item.item_def_id@ == def && (allow_locked || !item.locked)
}

/// `i` is the first drawable entry of lowest enchant.
pub open spec fn is_lowest(bag: Seq<ItemInstance>, def: Seq<char>, allow_locked: bool, i: int) -> bool {
    &&& 0 <= i < bag.len()
    &&& drawable(bag[i], def, allow_locked)
    &&& forall|j: int| 0 <= j < bag.len() && drawable(#[trigger] bag[j], def, allow_locked) ==> bag[i].enchant <= bag[j].enchant
    &&& forall|j: int| 0 <= j < i && drawable(#[trigger] bag[j], def, allow_locked) ==> bag[j].enchant > bag[i].enchant
}

/// The entry the next unit is drawn from, if any is drawable.
pub open spec fn lowest(bag: Seq<ItemInstance>, def: Seq<char>, allow_locked: bool) -> Option<int> {
    if exists|i: int| is_lowest(bag, def, allow_locked, i) {
        Some(choose|i: int| is_lowest(bag, def, allow_locked, i))
    } else {
        None
    }
}

/// The bag after taking `take` units from entry `i`: the stack shrinks, or
/// leaves the bag when emptied.
pub open spec fn take_from(bag: Seq<ItemInstance>, i: int, take: u32) -> Seq<ItemInstance> {
    if bag[i].quantity > take {
        bag.update(i, ItemInstance { quantity: (bag[i].quantity - take) as u32, ..bag[i] })
    } else {
        bag.remove(i)
    }
}

/// What drawing `quantity` units of `def` does: repeatedly take from the
/// lowest-enchant drawable entry until enough units are drawn or none is
/// left. Returns the bag after and the draws in order, each as
/// (entry taken from, units taken).
pub open spec fn draw_plan(bag: Seq<ItemInstance>, def: Seq<char>, quantity: u32, allow_locked: bool)
    -> (Seq<ItemInstance>, Seq<(ItemInstance, u32)>)
    decreases quantity + bag.len(),
{
    if quantity == 0 {
        (bag, Seq::empty())
    } else {
        match lowest(bag, def, allow_locked) {
            None => (bag, Seq::empty()),
            Some(i) => {
                if 0 <= i < bag.len() {
                    let take = if quantity < bag[i].quantity { quantity } else { bag[i].quantity };
                    let rest = draw_plan(take_from(bag, i, take), def, (quantity - take) as u32, allow_locked);
                    (rest.0, seq![(bag[i], take)] + rest.1)
                } else {
                    (bag, Seq::empty())
                }
            },
        }
    }
}

/// A draw that yields nothing leaves the bag as it was.
pub proof fn lemma_empty_draw_keeps_bag(bag: Seq<ItemInstance>, def: Seq<char>, quantity: u32, allow_locked: bool)
    ensures
        draw_plan(bag, def, quantity, allow_locked).1.len() == 0 ==> draw_plan(bag, def, quantity, allow_locked).0 == bag,
{
}

/// A draw record carries the entry's enchant and cape skin and the units.
pub open spec fn draw_records(d: Draw, entry: ItemInstance, take: u32) -> bool {
    d.enchant == entry.enchant && d.cape_color == entry.cape_color && d.cape_texture == entry.cape_texture
        && d.quantity == take
}

fn find_lowest(bag: &Vec<ItemInstance>, def: &String, allow_locked: bool) -> (r: Option<usize>)
    ensures
        match r {
            Some(i) => lowest(bag@, def@, allow_locked) == Some(i as int) && is_lowest(bag@, def@, allow_locked, i as int),
            None => lowest(bag@, def@, allow_locked) is None
                && forall|j: int| 0 <= j < bag.len() ==> !drawable(#[trigger] bag@[j], def@, allow_locked),
        },
{
    let mut best: Option<usize> = None;
    let mut i: usize = 0;
    while i < bag.len()
        invariant
            i <= bag.len(),
            match best {
                Some(b) => {
                    &&& b < i
                    &&& drawable(bag@[b as int], def@, allow_locked)
                    &&& forall|j: int| 0 <= j < i && drawable(#[trigger] bag@[j], def@, allow_locked) ==> bag@[b as int].enchant <= bag@[j].enchant
                    &&& forall|j: int| 0 <= j < b && drawable(#[trigger] bag@[j], def@, allow_locked) ==> bag@[j].enchant > bag@[b as int].enchant
                },
                None => forall|j: int| 0 <= j < i ==> !drawable(#[trigger] bag@[j], def@, allow_locked),
            },
        decreases bag.len() - i,
    {
        let item = &bag[i];
        if item.item_def_id.eq(def) && (allow_locked || !item.locked) {
            match best {
                Some(b) => {
                    if item.enchant < bag[b].enchant {
                        best = Some(i);
                    }
                },
                None => {
                    best = Some(i);
                },
            }
        }
        i = i + 1;
    }
    match best {
        Some(b) => {
            proof {
                assert(is_lowest(bag@, def@, allow_locked, b as int));
                let c = choose|c: int| is_lowest(bag@, def@, allow_locked, c);
                if c < b {
                    assert(bag@[c].enchant > bag@[b as int].enchant);
                } else if c > b {
                    assert(bag@[b as int].enchant > bag@[c].enchant);
                }
            }
            Some(b)
        },
        None => None,
    }
}

/// Draw `quantity` units of `item_def_id`, lowest enchant first; consuming
/// permits locked entries, trading does not. Fewer units come out when the
/// bag holds fewer.
pub fn draw_from_bag(bag: &mut Vec<ItemInstance>, item_def_id: &str, quantity: u32, allow_locked: bool) -> (draws: Vec<Draw>)
    ensures
        ({
            let plan = draw_plan(old(bag)@, item_def_id@, quantity, allow_locked);
            &&& final(bag)@ == plan.0
            &&& draws@.len() == plan.1.len()
            &&& forall|k: int| 0 <= k < draws@.len() ==> draw_records(#[trigger] draws@[k], plan.1[k].0, plan.1[k].1)
        }),
{
    let def = owned(item_def_id);
    let mut draws: Vec<Draw> = Vec::new();
    let mut remaining = quantity;
    let ghost plan = draw_plan(old(bag)@, item_def_id@, quantity, allow_locked);
    loop
        invariant_except_break
            plan.0 == draw_plan(bag@, def@, remaining, allow_locked).0,
            plan.1.subrange(draws@.len() as int, plan.1.len() as int) == draw_plan(bag@, def@, remaining, allow_locked).1,
            draws@.len() <= plan.1.len(),
            forall|k: int| 0 <= k < draws@.len() ==> draw_records(#[trigger] draws@[k], plan.1[k].0, plan.1[k].1),
            def@ == item_def_id@,
        ensures
            bag@ == plan.0,
            draws@.len() == plan.1.len(),
            forall|k: int| 0 <= k < draws@.len() ==> draw_records(#[trigger] draws@[k], plan.1[k].0, plan.1[k].1),
        decreases remaining + bag@.len(),
    {
        if remaining == 0 {
            proof {
                assert(plan.1.subrange(draws@.len() as int, plan.1.len() as int).len() == 0);
            }
            break;
        }
        let idx = match find_lowest(bag, &def, allow_locked) {
            Some(idx) => idx,
            None => {
                proof {
                    assert(plan.1.subrange(draws@.len() as int, plan.1.len() as int).len() == 0);
                }
                break;
            },
        };
        let ghost before = bag@;
        let ghost n = draws@.len();
        let have = bag[idx].quantity;
        let take = if remaining < have { remaining } else { have };
        draws.push(Draw {
            enchant: bag[idx].enchant,
            cape_color: opt_string_clone(&bag[idx].cape_color),
            cape_texture: opt_string_clone(&bag[idx].cape_texture),
            quantity: take,
        });
        if have > take {
            let old_item = &bag[idx];
            let item = ItemInstance {
                locked: old_item.locked,
                instance_id: old_item.instance_id,
                item_def_id: old_item.item_def_id.clone(),
                quantity: have - take,
                enchant: old_item.enchant,
                cape_color: opt_string_clone(&old_item.cape_color),
                cape_texture: opt_string_clone(&old_item.cape_texture),
            };
            bag.set(idx, item);
        } else {
            bag.remove(idx);
        }
        proof {
            assert(bag@ == take_from(before, idx as int, take));
            let rest = draw_plan(take_from(before, idx as int, take), def@, (remaining - take) as u32, allow_locked);
            assert(draw_plan(before, def@, remaining, allow_locked) == (rest.0, seq![(before[idx as int], take)] + rest.1));
            let tail = plan.1.subrange(n as int, plan.1.len() as int);
            assert(tail == seq![(before[idx as int], take)] + rest.1);
            assert(plan.1[n as int] == tail[0]);
            assert(plan.1.subrange(n + 1int, plan.1.len() as int) =~= tail.subrange(1, tail.len() as int));
            assert(tail.subrange(1, tail.len() as int) =~= rest.1);
        }
        remaining = remaining - take;
    }
    draws
}

/// Units of one entry that count for `def`.
pub open spec fn entry_units(item: ItemInstance, def: Seq<char>, allow_locked: bool) -> int {
    if drawable(item, def, allow_locked) { item.quantity as int } else { 0 }
}

/// Units of `def` in a bag that a draw could take.
pub open spec fn units(bag: Seq<ItemInstance>, def: Seq<char>, allow_locked: bool) -> int
    decreases bag.len(),
{
    if bag.len() == 0 {
        0
    } else {
        units(bag.drop_last(), def, allow_locked) + entry_units(bag.last(), def, allow_locked)
    }
}

proof fn lemma_units_nonneg(bag: Seq<ItemInstance>, def: Seq<char>, allow_locked: bool)
    ensures
        units(bag, def, allow_locked) >= 0,
    decreases bag.len(),
{
    if bag.len() > 0 {
        lemma_units_nonneg(bag.drop_last(), def, allow_locked);
    }
}

proof fn lemma_units_update(bag: Seq<ItemInstance>, i: int, x: ItemInstance, def: Seq<char>, allow_locked: bool)
    requires
        0 <= i < bag.len(),
    ensures
        units(bag.update(i, x), def, allow_locked) == units(bag, def, allow_locked)
            - entry_units(bag[i], def, allow_locked) + entry_units(x, def, allow_locked),
    decreases bag.len(),
{
    let u = bag.update(i, x);
    if i == bag.len() - 1 {
        assert(u.drop_last() =~= bag.drop_last());
    } else {
        assert(u.drop_last() =~= bag.drop_last().update(i, x));
        lemma_units_update(bag.drop_last(), i, x, def, allow_locked);
    }
}

proof fn lemma_units_remove(bag: Seq<ItemInstance>, i: int, def: Seq<char>, allow_locked: bool)
    requires
        0 <= i < bag.len(),
    ensures
        units(bag.remove(i), def, allow_locked) == units(bag, def, allow_locked) - entry_units(bag[i], def, allow_locked),
    decreases bag.len(),
{
    let r = bag.remove(i);
    if i == bag.len() - 1 {
        assert(r =~= bag.drop_last());
    } else {
        assert(r.drop_last() =~= bag.drop_last().remove(i));
        assert(r.last() == bag.last());
        lemma_units_remove(bag.drop_last(), i, def, allow_locked);
    }
}

proof fn lemma_units_push(bag: Seq<ItemInstance>, x: ItemInstance, def: Seq<char>, allow_locked: bool)
    ensures
        units(bag.push(x), def, allow_locked) == units(bag, def, allow_locked) + entry_units(x, def, allow_locked),
{
    assert(bag.push(x).drop_last() =~= bag);
}

/// `i` is the first drawable entry of least enchant among the first `n`.
pub open spec fn is_lowest_prefix(bag: Seq<ItemInstance>, def: Seq<char>, allow_locked: bool, i: int, n: int) -> bool {
    &&& 0 <= i < n <= bag.len()
    &&& drawable(bag[i], def, allow_locked)
    &&& forall|j: int| 0 <= j < n && drawable(#[trigger] bag[j], def, allow_locked) ==> bag[i].enchant <= bag[j].enchant
    &&& forall|j: int| 0 <= j < i && drawable(#[trigger] bag[j], def, allow_locked) ==> bag[j].enchant > bag[i].enchant
}

proof fn lemma_lowest_prefix(bag: Seq<ItemInstance>, def: Seq<char>, allow_locked: bool, n: int)
    requires
        0 <= n <= bag.len(),
    ensures
        (exists|j: int| 0 <= j < n && drawable(#[trigger] bag[j], def, allow_locked))
            ==> exists|i: int| is_lowest_prefix(bag, def, allow_locked, i, n),
    decreases n,
{
    if n > 0 {
        let m = n - 1;
        lemma_lowest_prefix(bag, def, allow_locked, m);
        if drawable(bag[n - 1], def, allow_locked) {
            if exists|j: int| 0 <= j < n - 1 && drawable(#[trigger] bag[j], def, allow_locked) {
                let i = choose|i: int| #[trigger] is_lowest_prefix(bag, def, allow_locked, i, m);
                if bag[n - 1].enchant < bag[i].enchant {
                    assert(is_lowest_prefix(bag, def, allow_locked, n - 1, n));
                } else {
                    assert(is_lowest_prefix(bag, def, allow_locked, i, n));
                }
            } else {
                assert(is_lowest_prefix(bag, def, allow_locked, n - 1, n));
            }
        } else {
            if exists|j: int| 0 <= j < n && drawable(#[trigger] bag[j], def, allow_locked) {
                let j = choose|j: int| 0 <= j < n && drawable(#[trigger] bag[j], def, allow_locked);
                assert(j < n - 1);
                let i = choose|i: int| #[trigger] is_lowest_prefix(bag, def, allow_locked, i, m);
                assert(is_lowest_prefix(bag, def, allow_locked, i, n));
            }
        }
    }
}

/// Some drawable entry of least enchant exists whenever a drawable entry does.
proof fn lemma_lowest_exists(bag: Seq<ItemInstance>, def: Seq<char>, allow_locked: bool, k: int)
    requires
        0 <= k < bag.len(),
        drawable(bag[k], def, allow_locked),
    ensures
        lowest(bag, def, allow_locked) is Some,
        is_lowest(bag, def, allow_locked, lowest(bag, def, allow_locked)->0),
{
    lemma_lowest_prefix(bag, def, allow_locked, bag.len() as int);
    let i = choose|i: int| is_lowest_prefix(bag, def, allow_locked, i, bag.len() as int);
    assert(is_lowest(bag, def, allow_locked, i));
}

/// No drawable entry means no units.
proof fn lemma_units_zero(bag: Seq<ItemInstance>, def: Seq<char>, allow_locked: bool)
    requires
        forall|j: int| 0 <= j < bag.len() ==> !drawable(#[trigger] bag[j], def, allow_locked),
    ensures
        units(bag, def, allow_locked) == 0,
    decreases bag.len(),
{
    if bag.len() > 0 {
        assert(!drawable(bag[bag.len() - 1], def, allow_locked));
        lemma_units_zero(bag.drop_last(), def, allow_locked);
    }
}

/// Total units over a draw plan.
pub open spec fn drawn_units(draws: Seq<(ItemInstance, u32)>) -> int
    decreases draws.len(),
{
    if draws.len() == 0 {
        0
    } else {
        draws[0].1 + drawn_units(draws.drop_first())
    }
}

/// Drawing conserves units: what comes out plus what stays is what was
/// there, and exactly the units asked for come out, or all of them when the
/// bag holds fewer.
pub proof fn law_draw_conserves_units(bag: Seq<ItemInstance>, def: Seq<char>, quantity: u32, allow_locked: bool)
    ensures
        ({
            let plan = draw_plan(bag, def, quantity, allow_locked);
            &&& drawn_units(plan.1) + units(plan.0, def, allow_locked) == units(bag, def, allow_locked)
            &&& drawn_units(plan.1) == if quantity < units(bag, def, allow_locked) { quantity as int } else { units(bag, def, allow_locked) }
        }),
    decreases quantity + bag.len(),
{
    lemma_units_nonneg(bag, def, allow_locked);
    if quantity == 0 {
    } else {
        match lowest(bag, def, allow_locked) {
            None => {
                if exists|j: int| 0 <= j < bag.len() && drawable(#[trigger] bag[j], def, allow_locked) {
                    let j = choose|j: int| 0 <= j < bag.len() && drawable(#[trigger] bag[j], def, allow_locked);
                    lemma_lowest_exists(bag, def, allow_locked, j);
                }
                lemma_units_zero(bag, def, allow_locked);
            },
            Some(i) => {
                assert(exists|c: int| is_lowest(bag, def, allow_locked, c));
                let c = choose|c: int| is_lowest(bag, def, allow_locked, c);
                assert(i == c);
                let take = if quantity < bag[i].quantity { quantity } else { bag[i].quantity };
                let next = take_from(bag, i, take);
                if bag[i].quantity > take {
                    lemma_units_update(bag, i, ItemInstance { quantity: (bag[i].quantity - take) as u32, ..bag[i] }, def, allow_locked);
                } else {
                    lemma_units_remove(bag, i, def, allow_locked);
                }
                law_draw_conserves_units(next, def, (quantity - take) as u32, allow_locked);
                let rest = draw_plan(next, def, (quantity - take) as u32, allow_locked);
                let all = seq![(bag[i], take)] + rest.1;
                assert(all.drop_first() =~= rest.1);
                assert(drawn_units(all) == take + drawn_units(rest.1));
            },
        }
    }
}

/// An entry carrying `id` means there is a first one.
proof fn lemma_first_position(bag: Seq<ItemInstance>, id: u64, k: int)
    requires
        0 <= k < bag.len(),
        bag[k].instance_id == id,
    ensures
        exists|i: int| 0 <= i < bag.len() && #[trigger] bag[i].instance_id == id
            && forall|j: int| 0 <= j < i ==> #[trigger] bag[j].instance_id != id,
    decreases k,
{
    if exists|j: int| 0 <= j < k && #[trigger] bag[j].instance_id == id {
        let j = choose|j: int| 0 <= j < k && #[trigger] bag[j].instance_id == id;
        lemma_first_position(bag, id, j);
    }
}

/// What `position_of` finds is the first entry carrying the id.
pub proof fn lemma_position_of_props(bag: Seq<ItemInstance>, id: u64)
    ensures
        match position_of(bag, id) {
            Some(p) => 0 <= p < bag.len() && bag[p].instance_id == id
                && forall|j: int| 0 <= j < p ==> #[trigger] bag[j].instance_id != id,
            None => forall|j: int| 0 <= j < bag.len() ==> #[trigger] bag[j].instance_id != id,
        },
{
    if exists|i: int| 0 <= i < bag.len() && #[trigger] bag[i].instance_id == id {
        let k = choose|i: int| 0 <= i < bag.len() && #[trigger] bag[i].instance_id == id;
        lemma_first_position(bag, id, k);
    }
}

/// The index of the first entry carrying `instance_id`.
pub open spec fn position_of(bag: Seq<ItemInstance>, instance_id: u64) -> Option<int> {
    if exists|i: int| 0 <= i < bag.len() && #[trigger] bag[i].instance_id == instance_id {
        Some(choose|i: int| 0 <= i < bag.len() && #[trigger] bag[i].instance_id == instance_id
            && forall|j: int| 0 <= j < i ==> #[trigger] bag[j].instance_id != instance_id)
    } else {
        None
    }
}

pub(crate) fn find_instance(bag: &Vec<ItemInstance>, instance_id: u64) -> (r: Option<usize>)
    ensures
        match r {
            Some(i) => position_of(bag@, instance_id) == Some(i as int) && i < bag.len(),
            None => position_of(bag@, instance_id) is None,
        },
{
    let mut i: usize = 0;
    while i < bag.len()
        invariant
            i <= bag.len(),
            forall|j: int| 0 <= j < i ==> #[trigger] bag@[j].instance_id != instance_id,
        decreases bag.len() - i,
    {
        if bag[i].instance_id == instance_id {
            proof {
                let k = choose|k: int| 0 <= k < bag@.len() && #[trigger] bag@[k].instance_id == instance_id
                    && forall|j: int| 0 <= j < k ==> #[trigger] bag@[j].instance_id != instance_id;
                if k < i {
                } else if k > i {
                    assert(bag@[i as int].instance_id != instance_id);
                }
            }
            return Some(i);
        }
        i = i + 1;
    }
    None
}

/// Remove one unit of `instance_id` from the bag, dropping the entry when
/// the stack empties. Returns the unit's item definition id; `None` (and no
/// change) when no entry carries that id.
pub fn consume_one(bag: &mut Vec<ItemInstance>, instance_id: u64) -> (def: Option<String>)
    ensures
        match position_of(old(bag)@, instance_id) {
            Some(i) => {
                &&& def is Some && def->0@ == old(bag)@[i].item_def_id@
                &&& final(bag)@ == take_from(old(bag)@, i, 1)
            },
            None => def is None && final(bag)@ == old(bag)@,
        },
{
    let idx = match find_instance(bag, instance_id) {
        Some(idx) => idx,
        None => return None,
    };
    let def_id = bag[idx].item_def_id.clone();
    if bag[idx].quantity > 1 {
        let old_item = &bag[idx];
        let item = ItemInstance {
            locked: old_item.locked,
            instance_id: old_item.instance_id,
            item_def_id: old_item.item_def_id.clone(),
            quantity: old_item.quantity - 1,
            enchant: old_item.enchant,
            cape_color: opt_string_clone(&old_item.cape_color),
            cape_texture: opt_string_clone(&old_item.cape_texture),
        };
        bag.set(idx, item);
    } else {
        bag.remove(idx);
    }
    Some(def_id)
}

/// Lock or unlock the bag entry carrying `instance_id`. Returns whether the
/// entry exists; the bag is unchanged when it does not.
pub fn set_bag_item_locked(bag: &mut Vec<ItemInstance>, instance_id: u64, locked: bool) -> (found: bool)
    ensures
        match position_of(old(bag)@, instance_id) {
            Some(i) => found && final(bag)@ == old(bag)@.update(i, ItemInstance { locked, ..old(bag)@[i] }),
            None => !found && final(bag)@ == old(bag)@,
        },
{
    let idx = match find_instance(bag, instance_id) {
        Some(idx) => idx,
        None => return false,
    };
    let old_item = &bag[idx];
    let item = ItemInstance {
        locked,
        instance_id: old_item.instance_id,
        item_def_id: old_item.item_def_id.clone(),
        quantity: old_item.quantity,
        enchant: old_item.enchant,
        cape_color: opt_string_clone(&old_item.cape_color),
        cape_texture: opt_string_clone(&old_item.cape_texture),
    };
    bag.set(idx, item);
    true
}

/// Inserting adds exactly the inserted units of that definition to the bag
/// (counting locked and unlocked entries alike), whichever way the units are
/// stored.
pub proof fn law_insert_adds_units(before: Seq<ItemInstance>, after: Seq<ItemInstance>, insert: BagInsert)
    requires
        insert.quantity > 0,
        insert.stackable ==> match first_match(before, insert) {
            Some(i) => before[i].quantity + insert.quantity <= u32::MAX
                && after == before.update(i, ItemInstance { quantity: (before[i].quantity + insert.quantity) as u32, ..before[i] }),
            None => after.len() == before.len() + 1 && after.drop_last() == before
                && fresh_entry(after.last(), insert, insert.first_instance_id, insert.quantity),
        },
        !insert.stackable ==> {
            &&& after.len() == before.len() + insert.quantity
            &&& after.subrange(0, before.len() as int) == before
            &&& forall|k: int| 0 <= k < insert.quantity ==> fresh_entry(
                #[trigger] after[before.len() + k], insert, (insert.first_instance_id + k) as u64, 1)
        },
    ensures
        units(after, insert.item_def_id@, true) == units(before, insert.item_def_id@, true) + insert.quantity,
{
    let def = insert.item_def_id@;
    if insert.stackable {
        match first_match(before, insert) {
            Some(i) => {
                let w = choose|w: int| 0 <= w < before.len() && stack_matches(insert, #[trigger] before[w]);
                lemma_first_match(before, insert, w);
                let k = choose|k: int| 0 <= k < before.len() && stack_matches(insert, #[trigger] before[k])
                    && forall|j: int| 0 <= j < k ==> !stack_matches(insert, #[trigger] before[j]);
                assert(i == k);
                lemma_units_update(before, i, ItemInstance { quantity: (before[i].quantity + insert.quantity) as u32, ..before[i] }, def, true);
            },
            None => {
                assert(after =~= before.push(after.last()));
                lemma_units_push(before, after.last(), def, true);
            },
        }
    } else {
        lemma_units_fresh_run(before, after, insert, insert.quantity as int);
        assert(after.subrange(0, before.len() + insert.quantity) =~= after);
    }
}

proof fn lemma_units_fresh_run(before: Seq<ItemInstance>, after: Seq<ItemInstance>, insert: BagInsert, n: int)
    requires
        0 <= n <= insert.quantity,
        after.len() == before.len() + insert.quantity,
        after.subrange(0, before.len() as int) == before,
        forall|k: int| 0 <= k < insert.quantity ==> fresh_entry(
            #[trigger] after[before.len() + k], insert, (insert.first_instance_id + k) as u64, 1),
    ensures
        units(after.subrange(0, before.len() + n), insert.item_def_id@, true) == units(before, insert.item_def_id@, true) + n,
    decreases n,
{
    let def = insert.item_def_id@;
    if n == 0 {
    } else {
        lemma_units_fresh_run(before, after, insert, n - 1);
        let prefix = after.subrange(0, before.len() + n);
        assert(prefix.drop_last() =~= after.subrange(0, before.len() + n - 1));
        assert(prefix.last() == after[before.len() + (n - 1)]);
    }
}

/// An ASCII hexadecimal digit.
pub open spec fn is_hex_digit(c: char) -> bool {
    ('0' <= c && c <= '9') || ('a' <= c && c <= 'f') || ('A' <= c && c <= 'F')
}

/// A cloth colour as `#rrggbb` in lowercase, or `None` when `color` is not
/// `#` followed by exactly six hexadecimal digits.
pub fn normalize_hex_color(color: &str) -> (r: Option<String>)
    ensures
        ({
            let c = color@;
            if c.len() == 7 && c[0] == '#' && forall|i: int| 1 <= i < 7 ==> is_hex_digit(#[trigger] c[i]) {
                r is Some && r->0@ == seq!['#'] + c.subrange(1, 7).map_values(|x: char| ascii_lower(x))
            } else {
                r is None
            }
        }),
{
    let n = color.unicode_len();
    if n != 7 || color.get_char(0) != '#' {
        return None;
    }
    let mut out = owned("#");
    proof {
        reveal_strlit("#");
    }
    let mut i: usize = 1;
    while i < 7
        invariant
            1 <= i <= 7,
            n == color@.len(),
            n == 7,
            color@[0] == '#',
            out@ == seq!['#'] + color@.subrange(1, i as int).map_values(|x: char| ascii_lower(x)),
            forall|k: int| 1 <= k < i ==> is_hex_digit(#[trigger] color@[k]),
        decreases 7 - i,
    {
        let c = color.get_char(i);
        if !(('0' <= c && c <= '9') || ('a' <= c && c <= 'f') || ('A' <= c && c <= 'F')) {
            return None;
        }
        push_char(&mut out, lower_char(c));
        proof {
            assert(color@.subrange(1, i + 1).map_values(|x: char| ascii_lower(x))
                =~= color@.subrange(1, i as int).map_values(|x: char| ascii_lower(x)).push(ascii_lower(c)));
        }
        i = i + 1;
    }
    Some(out)
}


/// The display name of item definition `item_def_id`, falling back to the
/// id itself when `names` has none.
pub fn item_name(names: &StrMap<String>, item_def_id: &str) -> (name: String)
    requires
        names.wf(),
    ensures
        name@ == if names@.contains_key(item_def_id@) { names@[item_def_id@]@ } else { item_def_id@ },
{
    match names.get(item_def_id) {
        Some(n) => n.clone(),
        None => owned(item_def_id),
    }
}

} // verus!
