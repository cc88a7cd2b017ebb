use game_rules::bag::{
    consume_one, draw_from_bag, item_name, normalize_hex_color, set_bag_item_locked, stack_into_bag,
    stack_would_overflow, BagInsert, ItemInstance,
};
use game_rules::enchant::{
    armor_pick, enchant_succeeds, read_enchant_scroll, roll_armor_pick, roll_enchant_bp, EnchantOutcome,
    ENCHANT_BP_SCALE, WHETSTONE_OIL_ITEM_ID,
};
use game_rules::keyed::StrMap;

fn item(instance_id: u64, def: &str, quantity: u32, enchant: i32, locked: bool) -> ItemInstance {
    ItemInstance {
        locked,
        instance_id,
        item_def_id: def.to_string(),
        quantity,
        enchant,
        cape_color: None,
        cape_texture: None,
    }
}

fn summary(bag: &[ItemInstance]) -> Vec<(u64, String, u32, i32, bool)> {
    bag.iter().map(|i| (i.instance_id, i.item_def_id.clone(), i.quantity, i.enchant, i.locked)).collect()
}

#[test]
fn stackable_inserts_merge_into_the_first_matching_stack() {
    let mut bag = vec![item(1, "arrow", 10, 0, true), item(2, "arrow", 5, 0, false)];
    let r = stack_into_bag(&mut bag, BagInsert { quantity: 3, ..BagInsert::one(true, "arrow", 0, 100) });
    assert_eq!(r.ids_used, 0);
    assert_eq!(r.first_instance_id, Some(2));
    assert_eq!(summary(&bag)[1], (2, "arrow".to_string(), 8, 0, false));
    let r = stack_into_bag(&mut bag, BagInsert::one(true, "arrow", 1, 100));
    assert_eq!((r.ids_used, r.first_instance_id), (1, Some(100)));
    assert_eq!(summary(&bag)[2], (100, "arrow".to_string(), 1, 1, false));
}

#[test]
fn unstackable_inserts_take_one_entry_and_id_per_unit() {
    let mut bag = Vec::new();
    let r = stack_into_bag(&mut bag, BagInsert { quantity: 2, ..BagInsert::one(false, "sword", 0, 7) });
    assert_eq!((r.ids_used, r.first_instance_id), (2, Some(7)));
    assert_eq!(summary(&bag), vec![(7, "sword".to_string(), 1, 0, false), (8, "sword".to_string(), 1, 0, false)]);
    let r = stack_into_bag(&mut bag, BagInsert { quantity: 0, ..BagInsert::one(false, "sword", 0, 9) });
    assert_eq!((r.ids_used, r.first_instance_id), (0, None));
    assert_eq!(bag.len(), 2);
}

#[test]
fn cape_skins_keep_stacks_apart() {
    let mut bag = vec![item(1, "cape", 1, 0, false)];
    let insert = BagInsert::one(true, "cape", 0, 50).with_cape_skin(Some("#ff0000".to_string()), None);
    assert!(!insert.matches_stack(&bag[0]));
    stack_into_bag(&mut bag, insert);
    assert_eq!(bag.len(), 2);
    assert_eq!(bag[1].cape_color.as_deref(), Some("#ff0000"));
}

#[test]
fn overflow_is_detected_before_inserting() {
    let bag = vec![item(1, "arrow", u32::MAX - 1, 0, false)];
    assert!(!stack_would_overflow(&bag, &BagInsert::one(true, "arrow", 0, 9)));
    assert!(stack_would_overflow(&bag, &BagInsert { quantity: 2, ..BagInsert::one(true, "arrow", 0, 9) }));
    assert!(!stack_would_overflow(&bag, &BagInsert { quantity: 2, ..BagInsert::one(false, "arrow", 0, 9) }));
}

#[test]
fn draws_take_the_lowest_enchant_first() {
    let mut bag = vec![
        item(1, "ore", 2, 3, false),
        item(2, "ore", 2, 1, false),
        item(3, "ore", 5, 0, true),
        item(4, "gem", 1, 0, false),
    ];
    let draws = draw_from_bag(&mut bag, "ore", 3, false);
    let got: Vec<(i32, u32)> = draws.iter().map(|d| (d.enchant, d.quantity)).collect();
    assert_eq!(got, vec![(1, 2), (3, 1)]);
    assert_eq!(summary(&bag), vec![
        (1, "ore".to_string(), 1, 3, false),
        (3, "ore".to_string(), 5, 0, true),
        (4, "gem".to_string(), 1, 0, false),
    ]);
    // Consuming may take locked units; the bag may run short.
    let draws = draw_from_bag(&mut bag, "ore", 10, true);
    let got: Vec<(i32, u32)> = draws.iter().map(|d| (d.enchant, d.quantity)).collect();
    assert_eq!(got, vec![(0, 5), (3, 1)]);
    assert_eq!(summary(&bag), vec![(4, "gem".to_string(), 1, 0, false)]);
}

#[test]
fn consuming_one_unit_drops_an_emptied_entry() {
    let mut bag = vec![item(1, "potion", 2, 0, false), item(2, "scroll", 1, 0, false)];
    assert_eq!(consume_one(&mut bag, 1), Some("potion".to_string()));
    assert_eq!(bag[0].quantity, 1);
    assert_eq!(consume_one(&mut bag, 2), Some("scroll".to_string()));
    assert_eq!(bag.len(), 1);
    assert_eq!(consume_one(&mut bag, 9), None);
    assert!(set_bag_item_locked(&mut bag, 1, true));
    assert!(bag[0].locked);
    assert!(!set_bag_item_locked(&mut bag, 9, true));
}

#[test]
fn cloth_colours_are_normalized() {
    assert_eq!(normalize_hex_color("#A1b2C3"), Some("#a1b2c3".to_string()));
    assert_eq!(normalize_hex_color("a1b2c3"), None);
    assert_eq!(normalize_hex_color("#a1b2c"), None);
    assert_eq!(normalize_hex_color("#a1b2cg"), None);
}

#[test]
fn item_names_fall_back_to_the_id() {
    let mut names = StrMap::new();
    names.insert("iron_sword".to_string(), "Iron Sword".to_string());
    assert_eq!(item_name(&names, "iron_sword"), "Iron Sword");
    assert_eq!(item_name(&names, "mystery"), "mystery");
}

#[test]
fn a_roll_below_the_ladder_succeeds() {
    assert!(enchant_succeeds(7_499, 5, false));
    assert!(!enchant_succeeds(7_500, 5, false));
    assert!(enchant_succeeds(7_499, 3, true));
    assert!(!enchant_succeeds(7_500, 3, true));
    for _ in 0..100 {
        assert!(roll_enchant_bp() < ENCHANT_BP_SCALE);
    }
    assert_eq!(armor_pick(6, 13), 1);
    let picks: Vec<u64> = (0..8).map(|_| roll_armor_pick()).collect();
    assert!(picks.iter().any(|p| *p != picks[0]));
}

#[test]
fn enchanting_needs_oil_and_spends_oil_and_scroll() {
    let mut bag = vec![item(1, "scroll", 1, 0, false)];
    let mut target = item(9, "sword", 1, 4, false);
    assert!(matches!(read_enchant_scroll(&mut bag, &mut target, 1, 0, false), EnchantOutcome::NoOil));
    assert_eq!(bag.len(), 1);
    bag.push(item(2, WHETSTONE_OIL_ITEM_ID, 2, 0, true));
    assert!(matches!(read_enchant_scroll(&mut bag, &mut target, 1, 9_999, false), EnchantOutcome::Honed(5)));
    assert_eq!(target.enchant, 5);
    assert_eq!(summary(&bag), vec![(2, WHETSTONE_OIL_ITEM_ID.to_string(), 1, 0, true)]);
    bag.push(item(3, "scroll", 1, 0, false));
    assert!(matches!(read_enchant_scroll(&mut bag, &mut target, 3, 7_500, false), EnchantOutcome::Destroyed));
    assert_eq!(target.enchant, 5);
    assert!(bag.is_empty());
}
