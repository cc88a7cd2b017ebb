use game_rules::bag::ItemInstance;
use game_rules::estate::{
    apply_estate_transfer, cache_key, check_transfer_selection, incoming_ids, placement_refused, plan_estate_transfer,
    take_placed_chest, BagLineItem, ItemFlags, TransferError, MAX_TRANSFER_LINES,
};
use game_rules::keyed::StrMap;

fn item(instance_id: u64, def: &str, quantity: u32) -> ItemInstance {
    ItemInstance {
        locked: false,
        instance_id,
        item_def_id: def.to_string(),
        quantity,
        enchant: 0,
        cape_color: None,
        cape_texture: None,
    }
}

fn flags() -> StrMap<ItemFlags> {
    let mut f = StrMap::new();
    f.insert("ore".to_string(), ItemFlags { stackable: true, untradeable: false, estate_storage: false });
    f.insert("gem".to_string(), ItemFlags { stackable: true, untradeable: false, estate_storage: false });
    f.insert("sword".to_string(), ItemFlags { stackable: false, untradeable: false, estate_storage: false });
    f.insert("bound_ring".to_string(), ItemFlags { stackable: false, untradeable: true, estate_storage: false });
    f.insert("storage_chest".to_string(), ItemFlags { stackable: false, untradeable: false, estate_storage: true });
    f
}

fn line(instance_id: u64, qty: u32) -> BagLineItem {
    BagLineItem { instance_id, qty }
}

fn refusal(
    bag: &Vec<ItemInstance>,
    chest: &Vec<ItemInstance>,
    deposits: Vec<BagLineItem>,
    withdrawals: Vec<BagLineItem>,
    current: bool,
    can_deposit: bool,
) -> Option<TransferError> {
    plan_estate_transfer(bag, chest, &flags(), &deposits, &withdrawals, current, can_deposit).err()
}

#[test]
fn a_transfer_needs_a_bounded_selection() {
    assert!(check_transfer_selection(0, 0) == Some(TransferError::NoSelection));
    assert!(check_transfer_selection(MAX_TRANSFER_LINES, 1) == Some(TransferError::TooManySelections));
    assert!(check_transfer_selection(MAX_TRANSFER_LINES, 0).is_none());
    assert!(check_transfer_selection(0, 1).is_none());
    assert_eq!(incoming_ids(&vec![line(1, 2), line(2, 3)]), Some(5));
    let big: Vec<BagLineItem> = (0..5).map(|i| line(i, u32::MAX)).collect();
    assert_eq!(incoming_ids(&big), Some(5 * u32::MAX as u64));
}

#[test]
fn every_refusal_has_its_message() {
    assert_eq!(TransferError::NoSelection.message(), "Select at least one item.");
    assert_eq!(TransferError::TooManySelections.message(), "Too many storage selections.");
    assert_eq!(TransferError::InvalidQuantity.message(), "Invalid storage quantity.");
    assert_eq!(TransferError::ChestChanged.message(), "The chest changed. Its contents were refreshed.");
    assert_eq!(TransferError::DepositsClosed.message(), "Overdue estates can withdraw items but cannot store new ones.");
    assert_eq!(TransferError::InvalidSelection.message(), "Invalid storage selection.");
    assert_eq!(TransferError::NotInBag.message(), "An item is no longer in your bag.");
    assert_eq!(TransferError::Bound.message(), "Bound or untradeable items cannot be stored.");
    assert_eq!(TransferError::NotInChest.message(), "An item is no longer in the chest.");
    assert_eq!(TransferError::BagStackFull.message(), "A bag stack is full.");
}

#[test]
fn transfers_are_refused_in_order() {
    let bag = vec![item(1, "ore", 5), item(2, "sword", 1), item(3, "bound_ring", 1), item(4, "storage_chest", 1)];
    let chest = vec![item(10, "gem", 4)];
    assert!(refusal(&bag, &chest, vec![line(1, 1)], vec![], false, true) == Some(TransferError::ChestChanged));
    assert!(refusal(&bag, &chest, vec![line(1, 1)], vec![], true, false) == Some(TransferError::DepositsClosed));
    assert!(refusal(&bag, &chest, vec![], vec![line(10, 1)], true, false).is_none());
    assert!(refusal(&bag, &chest, vec![line(1, 0)], vec![], true, true) == Some(TransferError::InvalidSelection));
    assert!(refusal(&bag, &chest, vec![line(1, 1), line(1, 1)], vec![], true, true) == Some(TransferError::InvalidSelection));
    assert!(refusal(&bag, &chest, vec![line(9, 1)], vec![], true, true) == Some(TransferError::NotInBag));
    assert!(refusal(&bag, &chest, vec![line(1, 6)], vec![], true, true) == Some(TransferError::InvalidQuantity));
    assert!(refusal(&bag, &chest, vec![line(3, 1)], vec![], true, true) == Some(TransferError::Bound));
    assert!(refusal(&bag, &chest, vec![line(4, 1)], vec![], true, true) == Some(TransferError::Bound));
    assert!(refusal(&bag, &chest, vec![], vec![line(11, 1)], true, true) == Some(TransferError::NotInChest));
    assert!(refusal(&bag, &chest, vec![], vec![line(10, 5)], true, true) == Some(TransferError::InvalidQuantity));
    assert!(refusal(&bag, &chest, vec![line(2, 1)], vec![line(10, 4)], true, true).is_none());
}

#[test]
fn a_transfer_moves_units_both_ways() {
    let bag = vec![item(1, "ore", 5), item(2, "sword", 1), item(5, "gem", 1)];
    let chest = vec![item(10, "gem", 4), item(11, "sword", 1)];
    let (deposits, withdrawals) =
        plan_estate_transfer(&bag, &chest, &flags(), &vec![line(1, 2), line(2, 1)], &vec![line(10, 3), line(11, 1)], true, true)
            .ok()
            .unwrap();
    let (after, next) = apply_estate_transfer(&bag, &deposits, &withdrawals, 100).ok().unwrap();
    let got: Vec<(u64, String, u32)> = after.iter().map(|i| (i.instance_id, i.item_def_id.clone(), i.quantity)).collect();
    assert_eq!(got, vec![(1, "ore".to_string(), 3), (5, "gem".to_string(), 4), (100, "sword".to_string(), 1)]);
    assert_eq!(next, 101);
}

#[test]
fn a_withdrawal_into_a_full_stack_stops_the_transfer() {
    let bag = vec![item(5, "gem", u32::MAX)];
    let chest = vec![item(10, "gem", 1)];
    let (deposits, withdrawals) =
        plan_estate_transfer(&bag, &chest, &flags(), &vec![], &vec![line(10, 1)], true, true).ok().unwrap();
    assert!(apply_estate_transfer(&bag, &deposits, &withdrawals, 100).err() == Some(TransferError::BagStackFull));
}

#[test]
fn chests_are_placed_only_where_allowed() {
    assert_eq!(cache_key((-3, 12)), "furniture:estate-storage:-3,12");
    assert!(!placement_refused(10, 0, 0, 2, 0));
    assert!(placement_refused(0, 0, 0, 2, 0));
    assert!(placement_refused(10, 3, 0, 2, 3));
    assert!(placement_refused(10, -1, 0, 2, -1));
    assert!(placement_refused(10, 1, 0, 2, 0));
    let mut bag = vec![item(7, "storage_chest", 2), item(8, "ore", 1)];
    assert!(!take_placed_chest(&mut bag, 8, "storage_chest"));
    assert!(take_placed_chest(&mut bag, 7, "storage_chest"));
    assert_eq!(bag[0].quantity, 1);
    assert!(take_placed_chest(&mut bag, 7, "storage_chest"));
    assert_eq!(bag.len(), 1);
}
