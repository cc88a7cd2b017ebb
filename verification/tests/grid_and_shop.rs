use game_rules::bag::ItemInstance;
use game_rules::bed::{is_bed, BedRest};
use game_rules::fence::{check_fence_edge, fence_bag_change, fence_bucket, FenceAxis, FenceEdge, FenceIndex};
use game_rules::furniture::{add_furniture_order, checkout_payment};

fn item(instance_id: u64, def: &str, quantity: u32) -> ItemInstance {
    ItemInstance {
        locked: false,
        instance_id,
        item_def_id: def.to_string(),
        quantity,
        enchant: 0,
        cape_color: None,
        cape_texture: None,
    }
}

fn edge(x: i32, z: i32, axis: FenceAxis) -> FenceEdge {
    FenceEdge { x, z, axis }
}

#[test]
fn fence_buckets_are_32_metres_rounded_down() {
    assert_eq!(fence_bucket(edge(0, 31, FenceAxis::X)), (0, 0));
    assert_eq!(fence_bucket(edge(32, -1, FenceAxis::Z)), (1, -1));
    assert_eq!(fence_bucket(edge(-32, -33, FenceAxis::X)), (-1, -2));
    assert_eq!(fence_bucket(edge(i32::MIN, i32::MAX, FenceAxis::X)), (-67_108_864, 67_108_863));
}

#[test]
fn the_fence_index_keeps_one_fence_per_edge_and_groups_buckets() {
    let mut index: FenceIndex<(i64, u8)> = FenceIndex::new();
    index.insert(edge(1, 1, FenceAxis::X), (7, 0));
    index.insert(edge(1, 1, FenceAxis::Z), (7, 1));
    index.insert(edge(40, 1, FenceAxis::X), (8, 2));
    index.insert(edge(1, 1, FenceAxis::X), (9, 3));
    assert_eq!(index.get(edge(1, 1, FenceAxis::X)), Some((9, 3)));
    assert_eq!(index.get(edge(2, 1, FenceAxis::X)), None);
    let group: Vec<(i64, u8)> = index.group(edge(5, 5, FenceAxis::Z)).iter().map(|e| e.1).collect();
    assert_eq!(group, vec![(9, 3), (7, 1)]);
    index.remove(edge(1, 1, FenceAxis::X));
    assert_eq!(index.get(edge(1, 1, FenceAxis::X)), None);
    assert_eq!(index.group(edge(33, 0, FenceAxis::X)).len(), 1);
}

#[test]
fn fence_edits_check_the_edge() {
    assert_eq!(check_fence_edge(true, true), Err("A fence is already on that edge."));
    assert_eq!(check_fence_edge(false, false), Err("That fence has already been removed."));
    assert_eq!(check_fence_edge(true, false), Ok(()));
    assert_eq!(check_fence_edge(false, true), Ok(()));
}

#[test]
fn placing_spends_a_fence_and_recovering_returns_one() {
    let mut bag = vec![item(1, "wooden_fence", 0), item(2, "wooden_fence", 2)];
    assert_eq!(fence_bag_change(&mut bag, true, "wooden_fence", 50), Ok(()));
    assert_eq!(bag[1].quantity, 1);
    assert_eq!(fence_bag_change(&mut bag, false, "wooden_fence", 50), Ok(()));
    assert_eq!(bag[0].quantity, 1);
    let mut empty = vec![item(3, "rope", 1)];
    assert_eq!(fence_bag_change(&mut empty, true, "wooden_fence", 50),
        Err("You have no wooden fences left. Recover one or leave placement mode."));
    assert_eq!(fence_bag_change(&mut empty, false, "wooden_fence", 50), Ok(()));
    assert_eq!((empty[1].instance_id, empty[1].quantity), (50, 1));
    let mut full = vec![item(4, "wooden_fence", u32::MAX)];
    assert_eq!(fence_bag_change(&mut full, false, "wooden_fence", 50), Err("Your fence stack is full."));
}

#[test]
fn checkout_checks_prices_balance_and_funds() {
    assert_eq!(checkout_payment(500, 400, 1_000, 1_000), Err("Prices changed. Review your basket before paying."));
    assert_eq!(checkout_payment(500, 500, 900, 1_000),
        Err("Your gold balance changed. Review your basket and try again."));
    assert_eq!(checkout_payment(500, 500, 400, 400), Err("Not enough gold."));
    assert_eq!(checkout_payment(500, 500, 1_000, 1_000), Ok(500));
}

#[test]
fn bought_furniture_lands_one_unit_per_entry() {
    let mut bag = vec![item(1, "chair", 1)];
    let lines = vec![("chair".to_string(), 2), ("table".to_string(), 0), ("lamp".to_string(), 1)];
    assert_eq!(add_furniture_order(&mut bag, &lines, 10), 13);
    let got: Vec<(u64, String, u32)> = bag.iter().map(|i| (i.instance_id, i.item_def_id.clone(), i.quantity)).collect();
    assert_eq!(got, vec![
        (1, "chair".to_string(), 1),
        (10, "chair".to_string(), 1),
        (11, "chair".to_string(), 1),
        (12, "lamp".to_string(), 1),
    ]);
}

#[test]
fn beds_double_mana_once_rested() {
    assert!(is_bed("bed") && is_bed("rustic_bed") && is_bed("furniture_bed") && is_bed("furniture_rustic_bed"));
    assert!(!is_bed("chair") && !is_bed("Bed"));
    let mut rest = BedRest::new();
    rest.update(1, true, 10_000, 8_000, 5_000);
    assert_eq!(rest.multiplier(1, true, true, 12_999, 1_000), 1);
    assert_eq!(rest.multiplier(1, true, true, 14_000, 1_000), 2);
    assert_eq!(rest.multiplier(1, false, false, 14_000, 1_000), 1);
    assert_eq!(rest.multiplier(1, true, true, 14_000, 1_000), 2);
    assert_eq!(rest.multiplier(1, true, false, 14_000, 1_000), 1);
    assert_eq!(rest.multiplier(1, true, true, 14_000, 1_000), 1);
    rest.update(2, true, 50_000, 0, 5_000);
    assert_eq!(rest.multiplier(2, true, true, 51_000, 1_000), 2);
    rest.stop(2);
    assert_eq!(rest.multiplier(2, true, true, 51_000, 1_000), 1);
}
