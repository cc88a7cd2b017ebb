//! Estate storage chests: moving items between a player's bag and a chest
//! (which lines are valid, and what the bag becomes), placing a chest from
//! the bag, and the cache key of a chest bucket.
use vstd::prelude::*;
use vstd::string::*;
use crate::bag::{
    first_match, lemma_first_match_props, lemma_position_of_props, position_of, stack_into_bag, stacked, take_from,
    BagInsert, BagInsertResult, ItemInstance,
};
use crate::keyed::StrMap;
use crate::text::{opt_string_clone, opt_view, push_signed_decimal, push_str, signed_decimal};

verus! {

/// Most deposit and withdrawal lines one transfer may carry.
pub const MAX_TRANSFER_LINES: usize = 128;

/// One selected bag or chest line: which instance, how many units.
pub struct BagLineItem {
    pub instance_id: u64,
    pub qty: u32,
}

/// What a transfer needs to know of an item definition.
pub struct ItemFlags {
    pub stackable: bool,
    pub untradeable: bool,
    /// The item is itself an estate storage chest.
    pub estate_storage: bool,
}

/// Why a transfer was refused.
#[derive(PartialEq, Eq, Structural)]
pub enum TransferError {
    NoSelection,
    TooManySelections,
    InvalidQuantity,
    ChestChanged,
    DepositsClosed,
    InvalidSelection,
    NotInBag,
    Bound,
    NotInChest,
    BagStackFull,
}

impl TransferError {
    /// What the player is told.
    pub fn message(&self) -> (m: &'static str)
        ensures
            m@ == match self {
                TransferError::NoSelection => "Select at least one item."@,
                TransferError::TooManySelections => "Too many storage selections."@,
                TransferError::InvalidQuantity => "Invalid storage quantity."@,
                TransferError::ChestChanged => "The chest changed. Its contents were refreshed."@,
                TransferError::DepositsClosed => "Overdue estates can withdraw items but cannot store new ones."@,
                TransferError::InvalidSelection => "Invalid storage selection."@,
                TransferError::NotInBag => "An item is no longer in your bag."@,
                TransferError::Bound => "Bound or untradeable items cannot be stored."@,
                TransferError::NotInChest => "An item is no longer in the chest."@,
                TransferError::BagStackFull => "A bag stack is full."@,
            },
    {
        match self {
            TransferError::NoSelection => "Select at least one item.",
            TransferError::TooManySelections => "Too many storage selections.",
            TransferError::InvalidQuantity => "Invalid storage quantity.",
            TransferError::ChestChanged => "The chest changed. Its contents were refreshed.",
            TransferError::DepositsClosed => "Overdue estates can withdraw items but cannot store new ones.",
            TransferError::InvalidSelection => "Invalid storage selection.",
            TransferError::NotInBag => "An item is no longer in your bag.",
            TransferError::Bound => "Bound or untradeable items cannot be stored.",
            TransferError::NotInChest => "An item is no longer in the chest.",
            TransferError::BagStackFull => "A bag stack is full.",
        }
    }
}

/// The first refusals of a transfer, before anything is loaded: something
/// must be selected, and not too much.
pub fn check_transfer_selection(deposits: usize, withdrawals: usize) -> (r: Option<TransferError>)
    ensures
        r == if deposits == 0 && withdrawals == 0 {
            Some(TransferError::NoSelection)
        } else if deposits + withdrawals > MAX_TRANSFER_LINES {
            Some(TransferError::TooManySelections)
        } else {
            None::<TransferError>
        },
{
    if deposits == 0 && withdrawals == 0 {
        Some(TransferError::NoSelection)
    } else if deposits > MAX_TRANSFER_LINES || withdrawals > MAX_TRANSFER_LINES - deposits {
        Some(TransferError::TooManySelections)
    } else {
        None
    }
}

/// The units the withdrawals bring in.
pub open spec fn line_units(lines: Seq<BagLineItem>) -> int
    decreases lines.len(),
{
    if lines.len() == 0 { 0 } else { line_units(lines.drop_last()) + lines.last().qty }
}

/// How many instance ids the withdrawals may need: their units, `None` on
/// overflow (reported as an invalid quantity).
pub fn incoming_ids(withdrawals: &Vec<BagLineItem>) -> (r: Option<u64>)
    ensures
        match r {
            Some(n) => n == line_units(withdrawals@),
            None => line_units(withdrawals@) > u64::MAX,
        },
{
    let mut sum: u64 = 0;
    let mut i: usize = 0;
    while i < withdrawals.len()
        invariant
            i <= withdrawals@.len(),
            sum == line_units(withdrawals@.subrange(0, i as int)),
        decreases withdrawals@.len() - i,
    {
        proof {
            let next = withdrawals@.subrange(0, i + 1);
            assert(next.drop_last() =~= withdrawals@.subrange(0, i as int));
        }
        match sum.checked_add(withdrawals[i].qty as u64) {
            Some(s) => sum = s,
            None => {
                proof {
                    lemma_line_units_grow(withdrawals@, i + 1);
                }
                return None;
            },
        }
        i = i + 1;
    }
    proof {
        assert(withdrawals@.subrange(0, withdrawals@.len() as int) =~= withdrawals@);
    }
    Some(sum)
}

proof fn lemma_line_units_grow(lines: Seq<BagLineItem>, k: int)
    requires
        0 <= k <= lines.len(),
    ensures
        line_units(lines) >= line_units(lines.subrange(0, k)),
    decreases lines.len() - k,
{
    if k == lines.len() {
        assert(lines.subrange(0, k) =~= lines);
    } else {
        lemma_line_units_grow(lines.drop_last(), k);
        assert(lines.drop_last().subrange(0, k) =~= lines.subrange(0, k));
    }
}

/// The flags of item definition `def`; an unknown definition is neither
/// stackable, untradeable nor a chest.
pub open spec fn flags_of(flags: Map<Seq<char>, ItemFlags>, def: Seq<char>) -> ItemFlags {
    if flags.contains_key(def) {
        flags[def]
    } else {
        ItemFlags { stackable: false, untradeable: false, estate_storage: false }
    }
}

/// Line `i` names an instance an earlier line already named.
pub open spec fn repeats(lines: Seq<BagLineItem>, i: int) -> bool {
    exists|j: int| 0 <= j < i && #[trigger] lines[j].instance_id == lines[i].instance_id
}

#[verifier::opaque]
/// What is wrong with deposit line `i`, if anything: a repeat or zero, an
/// instance not in the bag, more units than the stack holds, a chest or
/// untradeable item, or several units of an unstackable item.
pub open spec fn deposit_error(bag: Seq<ItemInstance>, flags: Map<Seq<char>, ItemFlags>, lines: Seq<BagLineItem>, i: int)
    -> Option<TransferError> {
    let l = lines[i];
    if l.qty == 0 || repeats(lines, i) {
        Some(TransferError::InvalidSelection)
    } else {
        match position_of(bag, l.instance_id) {
            None => Some(TransferError::NotInBag),
            Some(k) => {
                let f = flags_of(flags, bag[k].item_def_id@);
                if l.qty > bag[k].quantity {
                    Some(TransferError::InvalidQuantity)
                } else if f.estate_storage || f.untradeable {
                    Some(TransferError::Bound)
                } else if !f.stackable && l.qty != 1 {
                    Some(TransferError::InvalidQuantity)
                } else {
                    None
                }
            },
        }
    }
}

#[verifier::opaque]
/// What is wrong with withdrawal line `i`, if anything, against the
/// chest's items.
pub open spec fn withdrawal_error(chest: Seq<ItemInstance>, flags: Map<Seq<char>, ItemFlags>, lines: Seq<BagLineItem>, i: int)
    -> Option<TransferError> {
    let l = lines[i];
    if l.qty == 0 || repeats(lines, i) {
        Some(TransferError::InvalidSelection)
    } else {
        match position_of(chest, l.instance_id) {
            None => Some(TransferError::NotInChest),
            Some(k) => {
                let f = flags_of(flags, chest[k].item_def_id@);
                if l.qty > chest[k].quantity {
                    Some(TransferError::InvalidQuantity)
                } else if !f.stackable && l.qty != 1 {
                    Some(TransferError::InvalidQuantity)
                } else {
                    None
                }
            },
        }
    }
}

/// The first error among lines `0..n`, each checked by `error`.
pub open spec fn first_error(error: spec_fn(int) -> Option<TransferError>, n: int) -> Option<TransferError>
    decreases n,
{
    if n <= 0 {
        None
    } else {
        match first_error(error, n - 1) {
            Some(e) => Some(e),
            None => error(n - 1),
        }
    }
}

/// A validated line: the item as it stands, the units moved, and whether
/// the item stacks.
pub struct TransferLine {
    pub item: ItemInstance,
    pub quantity: u32,
    pub stackable: bool,
}

/// Why a transfer checked against the loaded chest is refused, if it is:
/// a stale revision, deposits into an overdue estate, then the first bad
/// deposit line, then the first bad withdrawal line.
pub open spec fn transfer_refusal(bag: Seq<ItemInstance>, chest: Seq<ItemInstance>, flags: Map<Seq<char>, ItemFlags>,
    deposits: Seq<BagLineItem>, withdrawals: Seq<BagLineItem>, revision_current: bool, can_deposit: bool) -> Option<TransferError> {
    if !revision_current {
        Some(TransferError::ChestChanged)
    } else if deposits.len() > 0 && !can_deposit {
        Some(TransferError::DepositsClosed)
    } else {
        match first_error(|i: int| deposit_error(bag, flags, deposits, i), deposits.len() as int) {
            Some(e) => Some(e),
            None => first_error(|i: int| withdrawal_error(chest, flags, withdrawals, i), withdrawals.len() as int),
        }
    }
}

/// `plan` carries line `l` of `items` with these flags.
pub open spec fn plans_line(plan: TransferLine, items: Seq<ItemInstance>, flags: Map<Seq<char>, ItemFlags>, l: BagLineItem) -> bool {
    &&& position_of(items, l.instance_id) is Some
    &&& plan.item == items[position_of(items, l.instance_id)->0]
    &&& plan.quantity == l.qty
    &&& plan.stackable == flags_of(flags, plan.item.item_def_id@).stackable
}

pub(crate) fn copy_item(item: &ItemInstance) -> (c: ItemInstance)
    ensures
        c == *item,
{
    ItemInstance {
        locked: item.locked,
        instance_id: item.instance_id,
        item_def_id: item.item_def_id.clone(),
        quantity: item.quantity,
        enchant: item.enchant,
        cape_color: opt_string_clone(&item.cape_color),
        cape_texture: opt_string_clone(&item.cape_texture),
    }
}

pub(crate) fn find_in(items: &Vec<ItemInstance>, instance_id: u64) -> (r: Option<usize>)
    ensures
        match r {
            Some(i) => position_of(items@, instance_id) == Some(i as int) && i < items@.len()
                && items@[i as int].instance_id == instance_id,
            None => position_of(items@, instance_id) is None,
        },
{
    let mut i: usize = 0;
    while i < items.len()
        invariant
            i <= items@.len(),
            forall|j: int| 0 <= j < i ==> #[trigger] items@[j].instance_id != instance_id,
        decreases items@.len() - i,
    {
        if items[i].instance_id == instance_id {
            proof {
                let k = choose|k: int| 0 <= k < items@.len() && #[trigger] items@[k].instance_id == instance_id
                    && forall|j: int| 0 <= j < k ==> #[trigger] items@[j].instance_id != instance_id;
                if k > i {
                    assert(items@[i as int].instance_id != instance_id);
                }
            }
            return Some(i);
        }
        i = i + 1;
    }
    None
}

fn flags_for(flags: &StrMap<ItemFlags>, def: &str) -> (f: (bool, bool, bool))
    requires
        flags.wf(),
    ensures
        f == (flags_of(flags@, def@).stackable, flags_of(flags@, def@).untradeable, flags_of(flags@, def@).estate_storage),
{
    match flags.get(def) {
        Some(v) => (v.stackable, v.untradeable, v.estate_storage),
        None => (false, false, false),
    }
}

fn seen_before(lines: &Vec<BagLineItem>, i: usize) -> (r: bool)
    requires
        i < lines@.len(),
    ensures
        r == repeats(lines@, i as int),
{
    let mut j: usize = 0;
    while j < i
        invariant
            j <= i < lines@.len(),
            forall|k: int| 0 <= k < j ==> #[trigger] lines@[k].instance_id != lines@[i as int].instance_id,
        decreases i - j,
    {
        if lines[j].instance_id == lines[i].instance_id {
            return true;
        }
        j = j + 1;
    }
    false
}

/// An error found among the first lines stays the first error of more lines.
proof fn lemma_first_error_stays(error: spec_fn(int) -> Option<TransferError>, m: int, n: int)
    requires
        0 <= m <= n,
        first_error(error, m) is Some,
    ensures
        first_error(error, n) == first_error(error, m),
    decreases n - m,
{
    if n > m {
        lemma_first_error_stays(error, m, n - 1);
    }
}

/// No error among the first lines means none among fewer.
proof fn lemma_first_error_prefix(error: spec_fn(int) -> Option<TransferError>, m: int, n: int)
    requires
        0 <= m <= n,
        first_error(error, n) is None,
    ensures
        first_error(error, m) is None,
    decreases n - m,
{
    if n > m {
        lemma_first_error_prefix(error, m, n - 1);
    }
}

/// Deposit plans fit the bag they were made against: each names an entry
/// of it, by distinct instance ids, moving at most the entry's units.
pub open spec fn deposits_fit(bag: Seq<ItemInstance>, plans: Seq<TransferLine>) -> bool {
    &&& forall|i: int| 0 <= i < plans.len() ==> position_of(bag, (#[trigger] plans[i]).item.instance_id) is Some
        && bag[position_of(bag, plans[i].item.instance_id)->0] == plans[i].item
        && plans[i].quantity <= plans[i].item.quantity
    &&& forall|i: int, j: int| 0 <= i < j < plans.len() ==> #[trigger] plans[i].item.instance_id != #[trigger] plans[j].item.instance_id
}

/// Deposit line `i`, checked and planned.
fn check_deposit_line(bag: &Vec<ItemInstance>, flags: &StrMap<ItemFlags>, lines: &Vec<BagLineItem>, i: usize)
    -> (r: Result<TransferLine, TransferError>)
    requires
        flags.wf(),
        i < lines@.len(),
    ensures
        match deposit_error(bag@, flags@, lines@, i as int) {
            Some(e) => r == Err::<TransferLine, TransferError>(e),
            None => r matches Ok(plan) && plans_line(plan, bag@, flags@, lines@[i as int])
                && plan.quantity <= plan.item.quantity
                && plan.item.instance_id == lines@[i as int].instance_id
                && !repeats(lines@, i as int),
        },
{
    reveal(deposit_error);
    let l = &lines[i];
    if l.qty == 0 || seen_before(lines, i) {
        return Err(TransferError::InvalidSelection);
    }
    let k = match find_in(bag, l.instance_id) {
        Some(k) => k,
        None => return Err(TransferError::NotInBag),
    };
    let (stackable, untradeable, storage) = flags_for(flags, bag[k].item_def_id.as_str());
    if l.qty > bag[k].quantity {
        return Err(TransferError::InvalidQuantity);
    }
    if storage || untradeable {
        return Err(TransferError::Bound);
    }
    if !stackable && l.qty != 1 {
        return Err(TransferError::InvalidQuantity);
    }
    Ok(TransferLine { item: copy_item(&bag[k]), quantity: l.qty, stackable })
}

/// Withdrawal line `i`, checked against the chest and planned.
fn check_withdrawal_line(chest: &Vec<ItemInstance>, flags: &StrMap<ItemFlags>, lines: &Vec<BagLineItem>, i: usize)
    -> (r: Result<TransferLine, TransferError>)
    requires
        flags.wf(),
        i < lines@.len(),
    ensures
        match withdrawal_error(chest@, flags@, lines@, i as int) {
            Some(e) => r == Err::<TransferLine, TransferError>(e),
            None => r matches Ok(plan) && plans_line(plan, chest@, flags@, lines@[i as int]),
        },
{
    reveal(withdrawal_error);
    let l = &lines[i];
    if l.qty == 0 || seen_before(lines, i) {
        return Err(TransferError::InvalidSelection);
    }
    let k = match find_in(chest, l.instance_id) {
        Some(k) => k,
        None => return Err(TransferError::NotInChest),
    };
    let (stackable, _untradeable, _storage) = flags_for(flags, chest[k].item_def_id.as_str());
    if l.qty > chest[k].quantity {
        return Err(TransferError::InvalidQuantity);
    }
    if !stackable && l.qty != 1 {
        return Err(TransferError::InvalidQuantity);
    }
    Ok(TransferLine { item: copy_item(&chest[k]), quantity: l.qty, stackable })
}

/// Check a transfer against the bag and the chest as loaded, and plan its
/// lines. `revision_current` is whether the chest is still at the revision
/// the player saw; `can_deposit` whether its estate is paid up.
pub fn plan_estate_transfer(bag: &Vec<ItemInstance>, chest: &Vec<ItemInstance>, flags: &StrMap<ItemFlags>,
    deposits: &Vec<BagLineItem>, withdrawals: &Vec<BagLineItem>, revision_current: bool, can_deposit: bool)
    -> (r: Result<(Vec<TransferLine>, Vec<TransferLine>), TransferError>)
    requires
        flags.wf(),
    ensures
        match transfer_refusal(bag@, chest@, flags@, deposits@, withdrawals@, revision_current, can_deposit) {
            Some(e) => r == Err::<(Vec<TransferLine>, Vec<TransferLine>), TransferError>(e),
            None => r matches Ok((d, w)) && d@.len() == deposits@.len() && w@.len() == withdrawals@.len()
                && (forall|i: int| 0 <= i < d@.len() ==> plans_line(#[trigger] d@[i], bag@, flags@, deposits@[i]))
                && (forall|i: int| 0 <= i < w@.len() ==> plans_line(#[trigger] w@[i], chest@, flags@, withdrawals@[i]))
                && deposits_fit(bag@, d@),
        },
{
    if !revision_current {
        return Err(TransferError::ChestChanged);
    }
    if deposits.len() > 0 && !can_deposit {
        return Err(TransferError::DepositsClosed);
    }
    let ghost derr = |i: int| deposit_error(bag@, flags@, deposits@, i);
    let mut dplans: Vec<TransferLine> = Vec::new();
    let mut i: usize = 0;
    while i < deposits.len()
        invariant
            flags.wf(),
            revision_current,
            deposits@.len() == 0 || can_deposit,
            i <= deposits@.len(),
            derr == (|i: int| deposit_error(bag@, flags@, deposits@, i)),
            first_error(derr, i as int) is None,
            dplans@.len() == i,
            forall|k: int| 0 <= k < i ==> plans_line(#[trigger] dplans@[k], bag@, flags@, deposits@[k])
                && dplans@[k].quantity <= dplans@[k].item.quantity
                && dplans@[k].item.instance_id == deposits@[k].instance_id,
            forall|a: int, b: int| 0 <= a < b < i ==> #[trigger] dplans@[a].item.instance_id != #[trigger] dplans@[b].item.instance_id,
        decreases deposits@.len() - i,
    {
        match check_deposit_line(bag, flags, deposits, i) {
            Err(e) => {
                proof {
                    assert(first_error(derr, i + 1) == Some(e));
                    lemma_first_error_stays(derr, i + 1, deposits@.len() as int);
                }
                return Err(e);
            },
            Ok(plan) => {
                assert(first_error(derr, i + 1) is None);
                proof {
                    assert forall|k: int| 0 <= k < i implies #[trigger] dplans@[k].item.instance_id != plan.item.instance_id by {
                        assert(deposits@[k].instance_id != deposits@[i as int].instance_id);
                    }
                }
                let ghost before = dplans@;
                dplans.push(plan);
                proof {
                    assert forall|a: int, b: int| 0 <= a < b < i + 1
                        implies #[trigger] dplans@[a].item.instance_id != #[trigger] dplans@[b].item.instance_id by {
                        assert(dplans@[a] == before[a]);
                        if b < i {
                            assert(dplans@[b] == before[b]);
                        }
                    }
                }
            },
        }
        i = i + 1;
    }
    proof {
        assert forall|k: int| 0 <= k < dplans@.len() implies position_of(bag@, (#[trigger] dplans@[k]).item.instance_id) is Some
            && bag@[position_of(bag@, dplans@[k].item.instance_id)->0] == dplans@[k].item
            && dplans@[k].quantity <= dplans@[k].item.quantity by {
            assert(plans_line(dplans@[k], bag@, flags@, deposits@[k]));
        }
    }
    let ghost werr = |i: int| withdrawal_error(chest@, flags@, withdrawals@, i);
    let mut wplans: Vec<TransferLine> = Vec::new();
    let mut j: usize = 0;
    while j < withdrawals.len()
        invariant
            flags.wf(),
            revision_current,
            deposits@.len() == 0 || can_deposit,
            derr == (|i: int| deposit_error(bag@, flags@, deposits@, i)),
            first_error(derr, deposits@.len() as int) is None,
            j <= withdrawals@.len(),
            werr == (|i: int| withdrawal_error(chest@, flags@, withdrawals@, i)),
            first_error(werr, j as int) is None,
            dplans@.len() == deposits@.len(),
            forall|k: int| 0 <= k < dplans@.len() ==> plans_line(#[trigger] dplans@[k], bag@, flags@, deposits@[k]),
            deposits_fit(bag@, dplans@),
            wplans@.len() == j,
            forall|k: int| 0 <= k < j ==> plans_line(#[trigger] wplans@[k], chest@, flags@, withdrawals@[k]),
        decreases withdrawals@.len() - j,
    {
        match check_withdrawal_line(chest, flags, withdrawals, j) {
            Err(e) => {
                proof {
                    assert(first_error(werr, j + 1) == Some(e));
                    lemma_first_error_stays(werr, j + 1, withdrawals@.len() as int);
                }
                return Err(e);
            },
            Ok(plan) => {
                assert(first_error(werr, j + 1) is None);
                wplans.push(plan);
            },
        }
        j = j + 1;
    }
    Ok((dplans, wplans))
}

/// `p` is the position of the first entry carrying `id`.
proof fn lemma_position_of(bag: Seq<ItemInstance>, id: u64, p: int)
    requires
        0 <= p < bag.len(),
        bag[p].instance_id == id,
        forall|j: int| 0 <= j < p ==> #[trigger] bag[j].instance_id != id,
    ensures
        position_of(bag, id) == Some(p),
{
    let c = choose|c: int| 0 <= c < bag.len() && #[trigger] bag[c].instance_id == id
        && forall|j: int| 0 <= j < c ==> #[trigger] bag[j].instance_id != id;
    assert(0 <= c < bag.len() && bag[c].instance_id == id && forall|j: int| 0 <= j < c ==> #[trigger] bag[j].instance_id != id);
    if c < p {
        assert(bag[c].instance_id != id);
    }
    if c > p {
        assert(bag[p].instance_id != id);
    }
}

/// Taking units from entry `k` leaves the first entry of another id in
/// place, unchanged.
proof fn lemma_take_keeps(bag: Seq<ItemInstance>, k: int, q: u32, id: u64)
    requires
        0 <= k < bag.len(),
        bag[k].instance_id != id,
        position_of(bag, id) is Some,
    ensures
        position_of(take_from(bag, k, q), id) is Some,
        take_from(bag, k, q)[position_of(take_from(bag, k, q), id)->0] == bag[position_of(bag, id)->0],
{
    lemma_position_of_props(bag, id);
    let p = position_of(bag, id)->0;
    let after = take_from(bag, k, q);
    if bag[k].quantity > q {
        assert forall|j: int| 0 <= j < p implies #[trigger] after[j].instance_id != id by {
            assert(bag[j].instance_id != id);
        }
        lemma_position_of(after, id, p);
    } else {
        if k < p {
            assert forall|j: int| 0 <= j < p - 1 implies #[trigger] after[j].instance_id != id by {
                if j < k {
                    assert(after[j] == bag[j]);
                } else {
                    assert(after[j] == bag[j + 1]);
                }
                assert(bag[j].instance_id != id || j >= k);
            }
            assert(after[p - 1] == bag[p]);
            lemma_position_of(after, id, p - 1);
        } else {
            assert forall|j: int| 0 <= j < p implies #[trigger] after[j].instance_id != id by {
                assert(after[j] == bag[j]);
            }
            assert(after[p] == bag[p]);
            lemma_position_of(after, id, p);
        }
    }
}

/// The bag after deposit plans leave it, in order.
pub open spec fn after_deposits(bag: Seq<ItemInstance>, plans: Seq<TransferLine>) -> Seq<ItemInstance>
    decreases plans.len(),
{
    if plans.len() == 0 {
        bag
    } else {
        let b = after_deposits(bag, plans.drop_last());
        match position_of(b, plans.last().item.instance_id) {
            Some(k) => take_from(b, k, plans.last().quantity),
            None => b,
        }
    }
}

/// A bag entry of the same kind as `item`: definition, enchant and cape.
pub open spec fn same_kind(entry: ItemInstance, item: ItemInstance) -> bool {
    &&& entry.item_def_id@ == item.item_def_id@
    &&& entry.enchant == item.enchant
    &&& opt_view(entry.cape_color) == opt_view(item.cape_color)
    &&& opt_view(entry.cape_texture) == opt_view(item.cape_texture)
}

/// Withdrawal `p` would overflow a bag stack of its kind.
pub open spec fn stack_full(bag: Seq<ItemInstance>, p: TransferLine) -> bool {
    p.stackable && exists|i: int| 0 <= i < bag.len() && same_kind(#[trigger] bag[i], p.item)
        && bag[i].quantity > u32::MAX - p.quantity
}

/// `ins` is the bag insert withdrawal `p` makes with ids from `id`: its
/// units land unlocked.
pub open spec fn inserts_line(ins: BagInsert, p: TransferLine, id: u64) -> bool {
    &&& !ins.locked
    &&& ins.stackable == p.stackable
    &&& ins.item_def_id@ == p.item.item_def_id@
    &&& ins.enchant == p.item.enchant
    &&& opt_view(ins.cape_color) == opt_view(p.item.cape_color)
    &&& opt_view(ins.cape_texture) == opt_view(p.item.cape_texture)
    &&& ins.first_instance_id == id
    &&& ins.quantity == p.quantity
}

/// Withdrawal `p` lands in `before` with ids from `id`, giving `after`
/// with `next` the next free id: no stack of its kind overflows, and the
/// bag insert it makes puts it there.
pub open spec fn withdrawal_step(before: Seq<ItemInstance>, p: TransferLine, id: u64, after: Seq<ItemInstance>, next: u64) -> bool {
    &&& !stack_full(before, p)
    &&& exists|ins: BagInsert, res: BagInsertResult| #![trigger stacked(before, ins, after, res)]
        inserts_line(ins, p, id) && stacked(before, ins, after, res) && next == id + res.ids_used
}

/// The withdrawals `plans` land one after another from `start`, ids taken
/// from `first_id` on: `states[k]` and `ids[k]` are the bag and the next
/// free id before withdrawal `k`, and after the last one.
pub open spec fn withdrawal_steps(start: Seq<ItemInstance>, plans: Seq<TransferLine>, first_id: u64,
    states: Seq<Seq<ItemInstance>>, ids: Seq<u64>) -> bool {
    &&& states.len() == plans.len() + 1
    &&& ids.len() == plans.len() + 1
    &&& states[0] == start
    &&& ids[0] == first_id
    &&& forall|k: int| 0 <= k < plans.len() ==> withdrawal_step(states[k], #[trigger] plans[k], ids[k], states[k + 1], ids[k + 1])
}

/// The units of a list of plans.
pub open spec fn plan_units(plans: Seq<TransferLine>) -> int
    decreases plans.len(),
{
    if plans.len() == 0 { 0 } else { plan_units(plans.drop_last()) + plans.last().quantity }
}

fn stack_would_fill(bag: &Vec<ItemInstance>, p: &TransferLine) -> (r: bool)
    ensures
        r == stack_full(bag@, *p),
{
    if !p.stackable {
        return false;
    }
    let mut i: usize = 0;
    while i < bag.len()
        invariant
            p.stackable,
            i <= bag@.len(),
            forall|j: int| 0 <= j < i ==> !(same_kind(#[trigger] bag@[j], p.item) && bag@[j].quantity > u32::MAX - p.quantity),
        decreases bag@.len() - i,
    {
        let e = &bag[i];
        if e.item_def_id.eq(&p.item.item_def_id) && e.enchant == p.item.enchant
            && crate::text::opt_string_eq(&e.cape_color, &p.item.cape_color)
            && crate::text::opt_string_eq(&e.cape_texture, &p.item.cape_texture)
            && e.quantity > u32::MAX - p.quantity {
            return true;
        }
        i = i + 1;
    }
    false
}

/// Take deposit `d` out of the bag.
fn take_deposit(cur: &mut Vec<ItemInstance>, d: &TransferLine)
    requires
        position_of(old(cur)@, d.item.instance_id) is Some,
        old(cur)@[position_of(old(cur)@, d.item.instance_id)->0] == d.item,
        d.quantity <= d.item.quantity,
    ensures
        final(cur)@ == take_from(old(cur)@, position_of(old(cur)@, d.item.instance_id)->0, d.quantity),
{
    let k = match find_in(cur, d.item.instance_id) {
        Some(k) => k,
        None => return,
    };
    if cur[k].quantity == d.quantity {
        cur.remove(k);
    } else {
        let e = &cur[k];
        let updated = ItemInstance {
            locked: e.locked,
            instance_id: e.instance_id,
            item_def_id: e.item_def_id.clone(),
            quantity: e.quantity - d.quantity,
            enchant: e.enchant,
            cape_color: opt_string_clone(&e.cape_color),
            cape_texture: opt_string_clone(&e.cape_texture),
        };
        cur.set(k, updated);
    }
    proof {
        assert(cur@ =~= take_from(old(cur)@, k as int, d.quantity));
    }
}

/// A copy of the bag.
fn copy_bag(bag: &Vec<ItemInstance>) -> (out: Vec<ItemInstance>)
    ensures
        out@ == bag@,
{
    let mut cur: Vec<ItemInstance> = Vec::new();
    let mut c: usize = 0;
    while c < bag.len()
        invariant
            c <= bag@.len(),
            cur@ == bag@.subrange(0, c as int),
        decreases bag@.len() - c,
    {
        cur.push(copy_item(&bag[c]));
        proof {
            assert(bag@.subrange(0, c + 1) =~= bag@.subrange(0, c as int).push(bag@[c as int]));
        }
        c = c + 1;
    }
    proof {
        assert(bag@.subrange(0, bag@.len() as int) =~= bag@);
    }
    cur
}

/// A copy of the bag with the deposits taken out, in order.
fn apply_deposits(bag: &Vec<ItemInstance>, deposits: &Vec<TransferLine>) -> (out: Vec<ItemInstance>)
    requires
        deposits_fit(bag@, deposits@),
    ensures
        out@ == after_deposits(bag@, deposits@),
{
    let mut cur = copy_bag(bag);
    proof {
        assert(deposits@.subrange(0, 0) =~= Seq::<TransferLine>::empty());
        assert forall|j: int| 0 <= j < deposits@.len() implies position_of(cur@, (#[trigger] deposits@[j]).item.instance_id) is Some
            && cur@[position_of(cur@, deposits@[j].item.instance_id)->0] == deposits@[j].item by {
        }
    }
    let mut i: usize = 0;
    while i < deposits.len()
        invariant
            deposits_fit(bag@, deposits@),
            i <= deposits@.len(),
            cur@ == after_deposits(bag@, deposits@.subrange(0, i as int)),
            forall|j: int| i <= j < deposits@.len() ==> position_of(cur@, (#[trigger] deposits@[j]).item.instance_id) is Some
                && cur@[position_of(cur@, deposits@[j].item.instance_id)->0] == deposits@[j].item,
        decreases deposits@.len() - i,
    {
        let ghost before = cur@;
        let d = &deposits[i];
        take_deposit(&mut cur, d);
        proof {
            let pre = deposits@.subrange(0, i as int);
            let post = deposits@.subrange(0, i + 1);
            assert(post.drop_last() =~= pre);
            assert(post.last() == deposits@[i as int]);
            let k = position_of(before, d.item.instance_id)->0;
            assert forall|j: int| i + 1 <= j < deposits@.len() implies position_of(cur@, (#[trigger] deposits@[j]).item.instance_id) is Some
                && cur@[position_of(cur@, deposits@[j].item.instance_id)->0] == deposits@[j].item by {
                assert(deposits@[j].item.instance_id != deposits@[i as int].item.instance_id);
                lemma_position_of_props(before, d.item.instance_id);
                lemma_take_keeps(before, k, d.quantity, deposits@[j].item.instance_id);
            }
        }
        i = i + 1;
    }
    proof {
        assert(deposits@.subrange(0, deposits@.len() as int) =~= deposits@);
    }
    cur
}

/// Land one withdrawal in the bag, unless it would overflow a stack of its
/// kind; the ids it used come back.
fn land_withdrawal(cur: &mut Vec<ItemInstance>, w: &TransferLine, next: u64) -> (r: Option<u64>)
    requires
        next + w.quantity <= u64::MAX,
    ensures
        match r {
            None => stack_full(old(cur)@, *w) && final(cur)@ == old(cur)@,
            Some(used) => used <= w.quantity && withdrawal_step(old(cur)@, *w, next, final(cur)@, (next + used) as u64),
        },
{
    if stack_would_fill(cur, w) {
        return None;
    }
    let insert = BagInsert {
        locked: false,
        stackable: w.stackable,
        item_def_id: w.item.item_def_id.as_str(),
        enchant: w.item.enchant,
        cape_color: opt_string_clone(&w.item.cape_color),
        cape_texture: opt_string_clone(&w.item.cape_texture),
        first_instance_id: next,
        quantity: w.quantity,
    };
    let ghost ins = insert;
    proof {
        lemma_first_match_props(cur@, insert);
        if w.stackable {
            match first_match(cur@, insert) {
                Some(m) => {
                    assert(same_kind(cur@[m], w.item));
                },
                None => {},
            }
        }
    }
    let res = stack_into_bag(cur, insert);
    proof {
        assert(inserts_line(ins, *w, next));
        assert(stacked(old(cur)@, ins, cur@, res));
    }
    Some(res.ids_used)
}

/// Apply a planned transfer to a copy of the bag: the deposits leave it in
/// order, then each withdrawal lands, unlocked, with new instance ids from
/// `first_id`. A withdrawal that would overflow a stack of its kind stops
/// the transfer. The new bag and the next free id come back.
pub fn apply_estate_transfer(bag: &Vec<ItemInstance>, deposits: &Vec<TransferLine>, withdrawals: &Vec<TransferLine>, first_id: u64)
    -> (r: Result<(Vec<ItemInstance>, u64), TransferError>)
    requires
        deposits_fit(bag@, deposits@),
        first_id + plan_units(withdrawals@) <= u64::MAX,
    ensures
        match r {
            Ok((b, next)) => exists|states: Seq<Seq<ItemInstance>>, ids: Seq<u64>|
                #![trigger withdrawal_steps(after_deposits(bag@, deposits@), withdrawals@, first_id, states, ids)]
                withdrawal_steps(after_deposits(bag@, deposits@), withdrawals@, first_id, states, ids)
                && states.last() == b@ && ids.last() == next,
            Err(e) => e == TransferError::BagStackFull && exists|k: int, states: Seq<Seq<ItemInstance>>, ids: Seq<u64>|
                #![trigger withdrawal_steps(after_deposits(bag@, deposits@), withdrawals@.subrange(0, k), first_id, states, ids)]
                0 <= k < withdrawals@.len()
                && withdrawal_steps(after_deposits(bag@, deposits@), withdrawals@.subrange(0, k), first_id, states, ids)
                && stack_full(states.last(), withdrawals@[k]),
        },
{
    let mut cur = apply_deposits(bag, deposits);
    let ghost start = cur@;
    let ghost mut states: Seq<Seq<ItemInstance>> = seq![cur@];
    let ghost mut ids: Seq<u64> = seq![first_id];
    let mut next = first_id;
    let mut j: usize = 0;
    proof {
        assert(withdrawal_steps(start, withdrawals@.subrange(0, 0), first_id, states, ids));
    }
    while j < withdrawals.len()
        invariant
            start == after_deposits(bag@, deposits@),
            j <= withdrawals@.len(),
            withdrawal_steps(start, withdrawals@.subrange(0, j as int), first_id, states, ids),
            states.last() == cur@,
            ids.last() == next,
            next <= first_id + plan_units(withdrawals@.subrange(0, j as int)),
            first_id + plan_units(withdrawals@) <= u64::MAX,
        decreases withdrawals@.len() - j,
    {
        proof {
            lemma_plan_units_grow(withdrawals@, j + 1);
        }
        let ghost mid = cur@;
        match land_withdrawal(&mut cur, &withdrawals[j], next) {
            None => {
                return Err(TransferError::BagStackFull);
            },
            Some(used) => {
                let new_next = next + used;
                proof {
                    let pre = withdrawals@.subrange(0, j as int);
                    let post = withdrawals@.subrange(0, j + 1);
                    assert(withdrawal_step(mid, withdrawals@[j as int], next as u64, cur@, new_next));
                    let states2 = states.push(cur@);
                    let ids2 = ids.push(new_next);
                    assert forall|k: int| 0 <= k < post.len() implies withdrawal_step(states2[k], #[trigger] post[k], ids2[k], states2[k + 1], ids2[k + 1]) by {
                        if k < j {
                            assert(post[k] == pre[k]);
                            assert(withdrawal_step(states[k], pre[k], ids[k], states[k + 1], ids[k + 1]));
                        } else {
                            assert(post[k] == withdrawals@[j as int]);
                        }
                    }
                    states = states2;
                    ids = ids2;
                }
                next = new_next;
            },
        }
        j = j + 1;
    }
    proof {
        assert(withdrawals@.subrange(0, withdrawals@.len() as int) =~= withdrawals@);
    }
    Ok((cur, next))
}

proof fn lemma_plan_units_grow(plans: Seq<TransferLine>, k: int)
    requires
        0 <= k <= plans.len(),
    ensures
        plan_units(plans) >= plan_units(plans.subrange(0, k)),
        k > 0 ==> plan_units(plans.subrange(0, k)) == plan_units(plans.subrange(0, k - 1)) + plans[k - 1].quantity,
    decreases plans.len() - k,
{
    if k > 0 {
        let s = plans.subrange(0, k);
        assert(s.drop_last() =~= plans.subrange(0, k - 1));
    }
    if k == plans.len() {
        assert(plans.subrange(0, k) =~= plans);
    } else {
        lemma_plan_units_grow(plans.drop_last(), k);
        assert(plans.drop_last().subrange(0, k) =~= plans.subrange(0, k));
        if k > 0 {
            assert(plans.drop_last().subrange(0, k - 1) =~= plans.subrange(0, k - 1));
        }
    }
}

/// The passability cache key of an estate chest bucket.
pub fn cache_key(key: (i32, i32)) -> (k: String)
    ensures
        k@ == "furniture:estate-storage:"@ + signed_decimal(key.0 as int) + ","@ + signed_decimal(key.1 as int),
{
    let mut k = crate::text::owned("furniture:estate-storage:");
    push_signed_decimal(&mut k, key.0 as i64);
    push_str(&mut k, ",");
    push_signed_decimal(&mut k, key.1 as i64);
    k
}

/// A chest is placed only by a living player standing on the floor asked
/// for, within the floors its kind allows.
pub fn placement_refused(health: u32, floor_level: i8, min_floor: i8, max_floor: i8, player_floor: i8) -> (refused: bool)
    ensures
        refused == (health == 0 || floor_level < min_floor || floor_level > max_floor || player_floor != floor_level),
{
    health == 0 || floor_level < min_floor || floor_level > max_floor || player_floor != floor_level
}

/// The first bag entry that is instance `instance_id` of `def`.
pub open spec fn placed_entry(bag: Seq<ItemInstance>, instance_id: u64, def: Seq<char>) -> Option<int> {
    if exists|i: int| 0 <= i < bag.len() && #[trigger] bag[i].instance_id == instance_id && bag[i].item_def_id@ == def {
        Some(choose|i: int| 0 <= i < bag.len() && #[trigger] bag[i].instance_id == instance_id && bag[i].item_def_id@ == def
            && forall|j: int| 0 <= j < i ==> !(#[trigger] bag[j].instance_id == instance_id && bag[j].item_def_id@ == def))
    } else {
        None
    }
}

/// Take the chest being placed out of the bag: one unit of instance
/// `instance_id` of `def`. False, and no change, when it is not there.
pub fn take_placed_chest(bag: &mut Vec<ItemInstance>, instance_id: u64, def: &str) -> (found: bool)
    ensures
        match placed_entry(old(bag)@, instance_id, def@) {
            Some(i) => found && final(bag)@ == take_from(old(bag)@, i, 1),
            None => !found && final(bag)@ == old(bag)@,
        },
{
    let want = crate::text::owned(def);
    let mut i: usize = 0;
    while i < bag.len()
        invariant
            want@ == def@,
            bag@ == old(bag)@,
            i <= bag@.len(),
            forall|j: int| 0 <= j < i ==> !(#[trigger] bag@[j].instance_id == instance_id && bag@[j].item_def_id@ == def@),
        decreases bag@.len() - i,
    {
        if bag[i].instance_id == instance_id && bag[i].item_def_id.eq(&want) {
            proof {
                let k = choose|k: int| 0 <= k < bag@.len() && #[trigger] bag@[k].instance_id == instance_id && bag@[k].item_def_id@ == def@
                    && forall|j: int| 0 <= j < k ==> !(#[trigger] bag@[j].instance_id == instance_id && bag@[j].item_def_id@ == def@);
                assert(0 <= i < bag@.len() && bag@[i as int].instance_id == instance_id && bag@[i as int].item_def_id@ == def@
                    && forall|j: int| 0 <= j < i ==> !(#[trigger] bag@[j].instance_id == instance_id && bag@[j].item_def_id@ == def@));
                if k < i {
                    assert(!(bag@[k].instance_id == instance_id && bag@[k].item_def_id@ == def@));
                }
                if k > i {
                    assert(!(bag@[i as int].instance_id == instance_id && bag@[i as int].item_def_id@ == def@));
                }
            }
            if bag[i].quantity > 1 {
                let e = &bag[i];
                let updated = ItemInstance {
                    locked: e.locked,
                    instance_id: e.instance_id,
                    item_def_id: e.item_def_id.clone(),
                    quantity: e.quantity - 1,
                    enchant: e.enchant,
                    cape_color: opt_string_clone(&e.cape_color),
                    cape_texture: opt_string_clone(&e.cape_texture),
                };
                bag.set(i, updated);
            } else {
                bag.remove(i);
            }
            proof {
                assert(bag@ =~= take_from(old(bag)@, i as int, 1));
            }
            return true;
        }
        i = i + 1;
    }
    false
}

} // verus!
