use game_rules::bag::ItemInstance;
use game_rules::bag_drop::{drop_bag_lines, DropRefusal};
use game_rules::estate::BagLineItem;
use game_rules::keyed::StrSet;

fn item(instance_id: u64, def: &str, quantity: u32, locked: bool) -> ItemInstance {
    ItemInstance {
        locked,
        instance_id,
        item_def_id: def.to_string(),
        quantity,
        enchant: 0,
        cape_color: None,
        cape_texture: None,
    }
}

fn line(instance_id: u64, qty: u32) -> BagLineItem {
    BagLineItem { instance_id, qty }
}

fn bag() -> Vec<ItemInstance> {
    vec![item(1, "arrow", 20, false), item(2, "sword", 1, false), item(3, "ring", 1, true)]
}

#[test]
fn a_valid_batch_takes_every_line_in_order() {
    let mut b = bag();
    let dropped = drop_bag_lines(&mut b, &vec![line(1, 5), line(2, 1), line(1, 0), line(1, 15)], &StrSet::new()).unwrap();
    assert_eq!(dropped.len(), 3);
    assert_eq!((dropped[0].0.instance_id, dropped[0].0.quantity, dropped[0].1), (1, 20, 5));
    assert_eq!((dropped[1].0.item_def_id.as_str(), dropped[1].1), ("sword", 1));
    assert_eq!(dropped[2].1, 15);
    assert_eq!(b.len(), 1);
    assert_eq!(b[0].instance_id, 3);
}

#[test]
fn one_bad_line_refuses_the_whole_batch() {
    let mut b = bag();
    assert_eq!(drop_bag_lines(&mut b, &vec![line(1, 5), line(9, 1)], &StrSet::new()).err(), Some(DropRefusal::NotFound));
    assert_eq!(b[0].quantity, 20);
    assert_eq!(drop_bag_lines(&mut b, &vec![line(1, 5), line(3, 1)], &StrSet::new()).err(), Some(DropRefusal::Locked));
    // Repeated lines count together against the stack.
    assert_eq!(drop_bag_lines(&mut b, &vec![line(1, 15), line(1, 6)], &StrSet::new()).err(), Some(DropRefusal::NotEnough));
    assert_eq!(drop_bag_lines(&mut b, &vec![line(1, u32::MAX), line(1, 1), line(9, 1)], &StrSet::new()).err(),
        Some(DropRefusal::InvalidQuantity));
    let mut issued = StrSet::new();
    issued.insert("sword".to_string());
    assert_eq!(drop_bag_lines(&mut b, &vec![line(1, 1), line(2, 1)], &issued).err(), Some(DropRefusal::IssuedGear));
    assert_eq!(b.len(), 3);
    assert_eq!(b[0].quantity, 20);
}

#[test]
fn lines_asking_nothing_are_ignored() {
    let mut b = bag();
    assert_eq!(drop_bag_lines(&mut b, &vec![line(9, 0)], &StrSet::new()).unwrap().len(), 0);
    assert_eq!(b.len(), 3);
}
