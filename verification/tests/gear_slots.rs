use game_rules::bag::ItemInstance;
use game_rules::gear::{equip, unequip, EquipError, Equipped, MAIN_HAND, OFF_HAND};

const RING: u8 = 5;
const RING_TWO: u8 = 6;

fn item(instance_id: u64, def: &str) -> ItemInstance {
    ItemInstance {
        locked: false,
        instance_id,
        item_def_id: def.to_string(),
        quantity: 1,
        enchant: 0,
        cape_color: None,
        cape_texture: None,
    }
}

fn ids(bag: &[ItemInstance]) -> Vec<u64> {
    bag.iter().map(|i| i.instance_id).collect()
}

#[test]
fn equipping_swaps_with_what_was_worn() {
    let mut bag = vec![item(1, "sword"), item(2, "axe")];
    let mut worn = Equipped::new();
    assert!(equip(&mut bag, &mut worn, 1, Some(MAIN_HAND), None, false, false) == Ok((MAIN_HAND, false)));
    assert_eq!(ids(&bag), vec![2]);
    assert!(equip(&mut bag, &mut worn, 2, Some(MAIN_HAND), None, false, false) == Ok((MAIN_HAND, false)));
    assert_eq!(ids(&bag), vec![1]);
    assert!(worn.occupied(MAIN_HAND));
}

#[test]
fn a_second_ring_takes_the_free_finger() {
    let mut bag = vec![item(1, "ring"), item(2, "ring"), item(3, "ring")];
    let mut worn = Equipped::new();
    assert!(equip(&mut bag, &mut worn, 1, Some(RING), Some(RING_TWO), false, false) == Ok((RING, false)));
    assert!(equip(&mut bag, &mut worn, 2, Some(RING), Some(RING_TWO), false, false) == Ok((RING_TWO, false)));
    assert!(equip(&mut bag, &mut worn, 3, Some(RING), Some(RING_TWO), false, false) == Ok((RING, false)));
    assert_eq!(ids(&bag), vec![1]);
}

#[test]
fn a_two_handed_weapon_owns_the_off_hand() {
    let mut bag = vec![item(1, "shield"), item(2, "greatsword"), item(3, "torch")];
    let mut worn = Equipped::new();
    equip(&mut bag, &mut worn, 1, Some(OFF_HAND), None, false, false).ok().unwrap();
    assert!(equip(&mut bag, &mut worn, 2, Some(MAIN_HAND), None, true, false) == Ok((MAIN_HAND, true)));
    assert_eq!(ids(&bag), vec![3, 1]);
    assert!(!worn.occupied(OFF_HAND));
    assert!(equip(&mut bag, &mut worn, 3, Some(OFF_HAND), None, false, true) == Err(EquipError::BothHands));
    assert_eq!(ids(&bag), vec![3, 1]);
}

#[test]
fn refusals_change_nothing() {
    let mut bag = vec![item(1, "apple")];
    let mut worn = Equipped::new();
    assert!(equip(&mut bag, &mut worn, 9, Some(MAIN_HAND), None, false, false) == Err(EquipError::NotInBag));
    assert!(equip(&mut bag, &mut worn, 1, None, None, false, false) == Err(EquipError::NotEquippable));
    assert_eq!(ids(&bag), vec![1]);
    assert_eq!(EquipError::NotInBag.message(), "Item not found in bag");
    assert_eq!(EquipError::NotEquippable.message(), "This item cannot be equipped");
    assert_eq!(EquipError::BothHands.message(), "Both hands are on your weapon");
}

#[test]
fn unequipping_returns_the_item_to_the_bag() {
    let mut bag = vec![item(1, "helmet")];
    let mut worn = Equipped::new();
    equip(&mut bag, &mut worn, 1, Some(3), None, false, false).ok().unwrap();
    assert!(bag.is_empty());
    assert!(unequip(&mut bag, &mut worn, 3));
    assert_eq!(ids(&bag), vec![1]);
    assert!(!unequip(&mut bag, &mut worn, 3));
    assert_eq!(ids(&bag), vec![1]);
}
