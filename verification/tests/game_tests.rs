use voxelland::game::{
    add_to_inventory, add_to_inventory_request, click_slot, craft_in_local_inv, craft_recipe_writes, eat_health,
    scroll_index, set_in_inventory, take_damage, update_avail_recipes, use_one, ControlsState, ROWLENGTH,
    STARTINGITEMS,
};
use voxelland::inventory::{ChestInventory, Inventory};
use voxelland::recipes::recipes;

fn inv_of(slots: [(u32, u32); 8]) -> Inventory {
    Inventory { dirty: false, inv: slots }
}

fn count(inv: &Inventory, id: u32) -> u64 {
    inv.inv.iter().filter(|s| s.0 == id).map(|s| s.1 as u64).sum()
}

#[test]
fn starting_items_and_rows() {
    assert_eq!(ROWLENGTH, 8);
    assert_eq!(STARTINGITEMS[0], (31, 1));
    assert_eq!(STARTINGITEMS[1], (49, 10));
    assert!(STARTINGITEMS[2..].iter().all(|s| *s == (0, 0)));
    let chest = ChestInventory { dirty: false, inv: [(0, 0); 32] };
    assert_eq!(chest.inv.len(), 32);
}

#[test]
fn add_stacks_onto_matching_slot() {
    let mut inv = inv_of(STARTINGITEMS);
    assert_eq!(add_to_inventory(&mut inv, 49, 5), Ok(true));
    assert!(inv.dirty);
    assert_eq!(inv.inv[1], (49, 15));
    assert_eq!(inv.inv[2], (0, 0));
}

#[test]
fn add_goes_to_first_empty_slot() {
    let mut inv = inv_of(STARTINGITEMS);
    assert_eq!(add_to_inventory(&mut inv, 7, 3), Ok(true));
    assert_eq!(inv.inv[2], (7, 3));
    assert_eq!(add_to_inventory(&mut inv, 8, 1), Ok(true));
    assert_eq!(inv.inv[3], (8, 1));
}

#[test]
fn add_to_full_inventory_fails_and_keeps_it() {
    let full = [(1, 1), (2, 1), (3, 1), (4, 1), (5, 1), (6, 1), (7, 1), (8, 1)];
    let mut inv = inv_of(full);
    assert_eq!(add_to_inventory(&mut inv, 9, 1), Err(false));
    assert_eq!(inv.inv, full);
    assert!(!inv.dirty);
    assert_eq!(add_to_inventory(&mut inv, 4, 2), Ok(true));
    assert_eq!(inv.inv[3], (4, 3));
}

#[test]
fn add_keeps_other_counts() {
    let mut inv = inv_of([(5, 2), (0, 0), (5, 1), (6, 4), (0, 0), (0, 0), (0, 0), (0, 0)]);
    let before6 = count(&inv, 6);
    let before5 = count(&inv, 5);
    add_to_inventory(&mut inv, 5, 7).unwrap();
    assert_eq!(count(&inv, 5), before5 + 7);
    assert_eq!(count(&inv, 6), before6);
    assert_eq!(inv.inv[0], (5, 9));
}

#[test]
fn request_names_slot_and_amount() {
    let inv = inv_of(STARTINGITEMS);
    assert_eq!(add_to_inventory_request(&inv, 49), Ok((1, 11)));
    assert_eq!(add_to_inventory_request(&inv, 12), Ok((2, 1)));
    let full = inv_of([(1, 1); 8]);
    assert_eq!(add_to_inventory_request(&full, 2), Err(false));
    assert_eq!(add_to_inventory_request(&full, 1), Ok((0, 2)));
}

#[test]
fn set_overwrites_one_slot() {
    let mut inv = inv_of(STARTINGITEMS);
    assert_eq!(set_in_inventory(&mut inv, 5, 14, 8), Ok(true));
    assert!(inv.dirty);
    assert_eq!(inv.inv[5], (14, 8));
    assert_eq!(inv.inv[0], (31, 1));
}

#[test]
fn single_craft_once() {
    let rs = recipes();
    let mut inv = inv_of([(6, 2), (0, 0), (0, 0), (0, 0), (0, 0), (0, 0), (0, 0), (0, 0)]);
    let mut more = true;
    craft_in_local_inv(&rs[0], &mut inv, &mut more);
    assert!(more);
    assert_eq!(inv.inv[0], (6, 1));
    assert_eq!(inv.inv[1], (10, 4));
}

#[test]
fn craft_without_items_stops() {
    let rs = recipes();
    let mut inv = inv_of(STARTINGITEMS);
    let mut more = true;
    craft_in_local_inv(&rs[0], &mut inv, &mut more);
    assert!(!more);
    assert_eq!(inv.inv, STARTINGITEMS);
}

#[test]
fn craft_last_item_frees_slot_for_result() {
    let rs = recipes();
    let mut inv = inv_of([(6, 1), (3, 1), (3, 1), (3, 1), (3, 1), (3, 1), (3, 1), (3, 1)]);
    let mut more = true;
    craft_in_local_inv(&rs[0], &mut inv, &mut more);
    assert!(more);
    assert_eq!(inv.inv[0], (10, 4));
}

#[test]
fn craft_with_no_room_keeps_uses_taken() {
    let rs = recipes();
    let mut inv = inv_of([(6, 2), (3, 1), (3, 1), (3, 1), (3, 1), (3, 1), (3, 1), (3, 1)]);
    let mut more = true;
    craft_in_local_inv(&rs[0], &mut inv, &mut more);
    assert!(!more);
    assert_eq!(inv.inv[0], (6, 1));
    assert_eq!(count(&inv, 10), 0);
}

#[test]
fn craft_two_uses() {
    let rs = recipes();
    let mut inv = inv_of([(18, 1), (23, 3), (0, 0), (0, 0), (0, 0), (0, 0), (0, 0), (0, 0)]);
    let mut more = true;
    craft_in_local_inv(&rs[8], &mut inv, &mut more);
    assert!(more);
    assert_eq!(inv.inv[0], (24, 1));
    assert_eq!(inv.inv[1], (23, 2));
}

#[test]
fn craft_writes_single() {
    let rs = recipes();
    let inv = inv_of([(6, 2), (0, 0), (0, 0), (0, 0), (0, 0), (0, 0), (0, 0), (0, 0)]);
    assert_eq!(craft_recipe_writes(&inv, &rs[0], false), vec![(0, 6, 1), (1, 10, 4)]);
    let none = inv_of(STARTINGITEMS);
    assert_eq!(craft_recipe_writes(&none, &rs[0], false), vec![]);
}

#[test]
fn craft_writes_all() {
    let rs = recipes();
    let inv = inv_of([(6, 2), (0, 0), (0, 0), (0, 0), (0, 0), (0, 0), (0, 0), (0, 0)]);
    assert_eq!(craft_recipe_writes(&inv, &rs[0], true), vec![(0, 10, 4), (1, 10, 4)]);
    let wood = inv_of([(10, 9), (0, 0), (0, 0), (0, 0), (0, 0), (0, 0), (0, 0), (0, 0)]);
    assert_eq!(craft_recipe_writes(&wood, &rs[1], true), vec![(0, 10, 1), (1, 19, 4)]);
}

#[test]
fn craft_conserves_other_kinds() {
    let rs = recipes();
    let mut inv = inv_of([(10, 9), (49, 3), (0, 0), (0, 0), (0, 0), (0, 0), (0, 0), (0, 0)]);
    let mut more = true;
    craft_in_local_inv(&rs[1], &mut inv, &mut more);
    assert_eq!(count(&inv, 10), 5);
    assert_eq!(count(&inv, 19), 2);
    assert_eq!(count(&inv, 49), 3);
}

#[test]
fn recipe_table_entries() {
    let rs = recipes();
    assert_eq!(rs.len(), 12);
    assert_eq!(rs[0], (vec![(6, 1)], (10, 4), true));
    assert_eq!(rs[8], (vec![(18, 1), (23, 1)], (24, 1), true));
    assert_eq!(rs[11], (vec![(22, 1)], (33, 4), true));
}

#[test]
fn available_recipes() {
    let rs = recipes();
    let inv = inv_of([(6, 2), (10, 10), (0, 0), (0, 0), (0, 0), (0, 0), (0, 0), (0, 0)]);
    assert_eq!(update_avail_recipes(&inv, &rs, false), vec![0, 1, 2, 3, 6]);
    assert_eq!(update_avail_recipes(&inv, &rs, true), vec![0, 6]);
    let empty = inv_of([(0, 0); 8]);
    assert_eq!(update_avail_recipes(&empty, &rs, false), Vec::<usize>::new());
}

#[test]
fn available_recipes_sum_over_slots() {
    let rs = recipes();
    let inv = inv_of([(10, 5), (10, 5), (0, 0), (0, 0), (0, 0), (0, 0), (0, 0), (0, 0)]);
    assert_eq!(update_avail_recipes(&inv, &rs, false), vec![1, 2, 3, 6]);
}

#[test]
fn click_same_kind_merges() {
    let mut slot = (5, 3);
    let mut mouse = (5, 4);
    assert!(!click_slot(&mut slot, &mut mouse));
    assert_eq!(slot, (5, 7));
    assert_eq!(mouse, (0, 0));
}

#[test]
fn click_other_kind_trades() {
    let mut slot = (5, 3);
    let mut mouse = (6, 4);
    assert!(click_slot(&mut slot, &mut mouse));
    assert_eq!(slot, (6, 4));
    assert_eq!(mouse, (5, 3));
    let mut empty = (0, 0);
    let mut carried = (9, 2);
    assert!(click_slot(&mut empty, &mut carried));
    assert_eq!(empty, (9, 2));
    assert_eq!(carried, (0, 0));
}

#[test]
fn scrolling_wraps() {
    assert_eq!(scroll_index(0, -1, 8), 7);
    assert_eq!(scroll_index(7, 1, 8), 0);
    assert_eq!(scroll_index(3, 1, 8), 4);
    assert_eq!(scroll_index(3, -1, 8), 2);
    assert_eq!(scroll_index(3, 0, 8), 3);
    assert_eq!(scroll_index(0, -1, 1), 0);
}

#[test]
fn damage_and_death() {
    let mut inv = inv_of([(3, 3); 8]);
    assert_eq!(take_damage(20, &mut inv, 5), (15, false));
    assert_eq!(inv.inv, [(3, 3); 8]);
    assert_eq!(take_damage(5, &mut inv, 5), (20, true));
    assert_eq!(inv.inv, STARTINGITEMS);
    let mut inv2 = inv_of([(3, 3); 8]);
    assert_eq!(take_damage(2, &mut inv2, 9), (20, true));
    assert_eq!(inv2.inv, STARTINGITEMS);
}

#[test]
fn using_items() {
    let mut slot = (32, 2);
    use_one(&mut slot);
    assert_eq!(slot, (32, 1));
    use_one(&mut slot);
    assert_eq!(slot, (0, 0));
}

#[test]
fn eating_caps_health() {
    assert_eq!(eat_health(10, 6), 16);
    assert_eq!(eat_health(18, 6), 20);
    assert_eq!(eat_health(14, 6), 20);
}

#[test]
fn controls() {
    let mut c = ControlsState::new();
    assert!(!c.left && !c.right && !c.forward && !c.back && !c.up && !c.shift);
    c.left = true;
    c.forward = true;
    c.shift = true;
    c.lookingleft = true;
    c.clear();
    assert!(!c.left && !c.forward && !c.lookingleft);
    assert!(c.shift);
}
