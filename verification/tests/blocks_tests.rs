use voxelland::blockinfo::{Blocks, BLOCK_DIRECTION_BITS};
use voxelland::cube::CubeSide;
use voxelland::placement::{plan_placement, PlaceSite};
use voxelland::planetinfo::Planets;
use voxelland::specialblocks::door::{self, DoorInfo};
use voxelland::specialblocks::specialblocks::SpecialBlocks;
use voxelland::tools::{get_block_material, get_tools_target_material, Material};
use voxelland::vec::IVec3;

#[test]
fn block_names() {
    assert_eq!(Blocks::get_name(0), "Air");
    assert_eq!(Blocks::get_name(19), "Door");
    assert_eq!(Blocks::get_name(40), "Jump Switcher Block");
    assert_eq!(Blocks::get_name(41), "Jump Switcher Block");
    assert_eq!(Blocks::get_name(46), "Auto Trampoline");
    assert_eq!(Blocks::get_name(47), "Unknown Item");
    assert_eq!(Blocks::get_name(u32::MAX), "Unknown Item");
}

#[test]
fn texture_cells_by_face() {
    assert_eq!(Blocks::get_texs_length(), 47);
    assert_eq!(Blocks::get_tex_coords(3, CubeSide::LEFT), (3, 0));
    assert_eq!(Blocks::get_tex_coords(3, CubeSide::BOTTOM), (4, 0));
    assert_eq!(Blocks::get_tex_coords(3, CubeSide::TOP), (3, 1));
    assert_eq!(Blocks::get_tex_coords(43, CubeSide::FRONT), (0, 8));
    assert_eq!(Blocks::get_tex_coords(43, CubeSide::TOP), (2, 8));
    assert_eq!(Blocks::get_tex_coords(22, CubeSide::BOTTOM), (14, 1));
}

#[test]
fn block_groups() {
    assert!(Blocks::is_transparent(2) && Blocks::is_transparent(8) && !Blocks::is_transparent(7));
    assert!(Blocks::is_climbable(20) && Blocks::is_climbable(22) && !Blocks::is_climbable(19));
    assert!(Blocks::is_semi_transparent(44) && !Blocks::is_semi_transparent(2));
    assert!(Blocks::is_non_placeable(17) && !Blocks::is_non_placeable(16));
    assert!(Blocks::is_light(30) && !Blocks::is_light(31));
    assert!(Blocks::is_food(32) && Blocks::is_food(33) && !Blocks::is_food(34));
    assert_eq!(Blocks::get_food_stats(32), (6, 50));
}

#[test]
fn light_colors() {
    let c = Blocks::get_light_color(25);
    assert_eq!((c.x, c.y, c.z), (7, 0, 10));
    let c = Blocks::get_light_color(30);
    assert_eq!((c.x, c.y, c.z), (2, 15, 12));
    let c = Blocks::get_light_color(5);
    assert_eq!((c.x, c.y, c.z), (15, 15, 15));
}

#[test]
fn sound_series_names() {
    assert_eq!(Blocks::get_walk_series(22), "grassstepseries");
    assert_eq!(Blocks::get_walk_series(2), "waterstepseries");
    assert_eq!(Blocks::get_walk_series(9), "stonestepseries");
    assert_eq!(Blocks::get_place_series(19), "doorseries");
    assert_eq!(Blocks::get_place_series(18), "glassplaceseries");
    assert_eq!(Blocks::get_place_series(4), "stoneplaceseries");
}

#[test]
fn id_and_flag_bits() {
    assert_eq!(Blocks::block_id_bits(), 0xFFFF);
    assert_eq!(Blocks::block_flag_bits(), 0xFFFF_0000);
    assert_eq!(BLOCK_DIRECTION_BITS, 0x3_0000);
    let mut v: u32 = 19;
    Blocks::set_direction_bits(&mut v, 3);
    assert_eq!(v, 19 | (3 << 16));
    assert_eq!(Blocks::get_direction_bits(v), 3);
    assert_eq!(v & Blocks::block_id_bits(), 19);
    // or-ing does not clear bits that are already set
    Blocks::set_direction_bits(&mut v, 1);
    assert_eq!(Blocks::get_direction_bits(v), 3);
}

#[test]
fn door_bits() {
    let mut v: u32 = 19;
    DoorInfo::set_door_open_bit(&mut v, 1);
    assert_eq!(DoorInfo::get_door_open_bit(v), 1);
    DoorInfo::toggle_door_open_bit(&mut v);
    assert_eq!(DoorInfo::get_door_open_bit(v), 0);
    assert_eq!(v, 19);
    DoorInfo::set_opposite_door_bits(&mut v, 1);
    assert_eq!(DoorInfo::get_opposite_door_bits(v), 1);
    DoorInfo::set_opposite_door_bits(&mut v, 0);
    assert_eq!(v, 19);
    let top = 19 | door::DOORTOP_BITS;
    assert_eq!(DoorInfo::get_door_top_bit(top), 1);
    assert_eq!(DoorInfo::get_door_top_bit(19), 0);
    let mut d = 19;
    DoorInfo::set_direction_bits(&mut d, 2);
    assert_eq!(DoorInfo::get_direction_bits(d), 2);
}

#[test]
fn door_models() {
    // plain door facing 3, open: turns to 0
    let plain = 19 | (3 << 16) | door::DOOROPEN_BITS;
    assert_eq!(DoorInfo::door_model_index(plain), 0);
    // mirrored door facing 0, open: wraps to 3
    let mirrored = 19 | door::DOOROPEN_BITS | door::OPPOSITEDOOR_BITS;
    assert_eq!(DoorInfo::door_model_index(mirrored), 3);
    // mirrored door facing 2, open: 1
    let mirrored2 = 19 | (2 << 16) | door::DOOROPEN_BITS | door::OPPOSITEDOOR_BITS;
    assert_eq!(DoorInfo::door_model_index(mirrored2), 1);
    // shut door shows its direction
    assert_eq!(DoorInfo::door_model_index(19 | (1 << 16)), 1);
}

#[test]
fn door_placement() {
    let p = IVec3::new(10, 5, -3);
    assert_eq!(door::door_other_half(p, 19 | door::DOORTOP_BITS), IVec3::new(10, 4, -3));
    assert_eq!(door::door_other_half(p, 19), IVec3::new(10, 6, -3));
    assert_eq!(door::door_side_neighbors(p, 0), (IVec3::new(9, 5, -3), IVec3::new(11, 5, -3)));
    assert_eq!(door::door_side_neighbors(p, 1), (IVec3::new(10, 5, -4), IVec3::new(10, 5, -2)));
    assert_eq!(door::door_side_neighbors(p, 2), (IVec3::new(11, 5, -3), IVec3::new(9, 5, -3)));
    assert_eq!(door::door_side_neighbors(p, 3), (IVec3::new(10, 5, -2), IVec3::new(10, 5, -4)));
    let (b, t) = door::new_door_halves(19, 2);
    assert_eq!(b, 19 | (2 << 16));
    assert_eq!(t, 19 | (2 << 16) | door::DOORTOP_BITS);

    let (mut nb, mut nt) = (b, t);
    let (mut ob, mut ot) = door::new_door_halves(19, 2);
    ob |= door::OPPOSITEDOOR_BITS;
    assert!(door::pair_with_neighbor(&mut nb, &mut nt, &mut ob, &mut ot, 2));
    assert_eq!(DoorInfo::get_opposite_door_bits(nb), 1);
    assert_eq!(DoorInfo::get_opposite_door_bits(nt), 1);
    assert_eq!(DoorInfo::get_opposite_door_bits(ob), 0);
    assert_eq!(DoorInfo::get_opposite_door_bits(ot), 0);

    // a door facing elsewhere, or a plain block, does not pair
    let (mut nb2, mut nt2) = (b, t);
    let (mut other, mut other_top) = door::new_door_halves(19, 1);
    assert!(!door::pair_with_neighbor(&mut nb2, &mut nt2, &mut other, &mut other_top, 2));
    assert_eq!((nb2, nt2), (b, t));
    let (mut stone, mut air) = (5u32, 0u32);
    assert!(!door::pair_with_neighbor(&mut nb2, &mut nt2, &mut stone, &mut air, 2));
}

#[test]
fn double_door_opens_symmetrically() {
    for d in 0..4u32 {
        let plain = 19 | (d << 16) | door::DOOROPEN_BITS;
        let mirrored = plain | door::OPPOSITEDOOR_BITS;
        let a = DoorInfo::door_model_index(plain) as i32;
        let b = DoorInfo::door_model_index(mirrored) as i32;
        assert_eq!((a - b).rem_euclid(4), 2);
    }
}

#[test]
fn special_blocks() {
    assert!(SpecialBlocks::contains(19));
    assert!(!SpecialBlocks::contains(20));
}

#[test]
fn materials() {
    assert!(get_block_material(9) == Material::Stone);
    assert!(get_block_material(48) == Material::Dirt);
    assert!(get_block_material(44) == Material::Wood);
    assert!(get_block_material(2) == Material::Stone);
    assert!(get_tools_target_material(37) == Material::Stone);
    assert!(get_tools_target_material(38) == Material::Dirt);
    assert!(get_tools_target_material(39) == Material::Wood);
    assert!(get_tools_target_material(36) == Material::NoneOrNonTool);
}

#[test]
fn planets() {
    assert_eq!(Planets::get_voxel_model_index_range(0), (0, 13));
    assert_eq!(Planets::get_voxel_model_index_range(1), (14, 16));
    assert_eq!(Planets::get_voxel_model_index_range(7), (0, 0));
    assert_eq!(Planets::get_floor_blocks(0), vec![3, 34]);
    assert_eq!(Planets::get_floor_blocks(1), vec![1]);
    assert_eq!(Planets::get_floor_blocks(2), vec![3, 34]);
    assert_eq!(Planets::get_mob_sound(6), Some("assets/sfx/cricket1.mp3"));
    assert_eq!(Planets::get_mob_sound(3), Some("assets/sfx/monster2.mp3"));
    assert_eq!(Planets::get_mob_sound(0), None);
}

fn site(point: IVec3, above: u32, below: u32) -> PlaceSite {
    PlaceSite {
        point,
        replaceable: true,
        player: IVec3::new(0, 0, 0),
        above,
        below,
        left: 0,
        left_up: 0,
        right: 0,
        right_up: 0,
    }
}

#[test]
fn placing_plain_blocks() {
    let p = plan_placement(1, 0, &site(IVec3::new(5, 10, 5), 0, 0));
    assert_eq!(p.writes, vec![(IVec3::new(5, 10, 5), 1)]);
    assert!(p.consumes);
    let food = plan_placement(32, 0, &site(IVec3::new(5, 10, 5), 0, 0));
    assert!(food.writes.is_empty());
    assert!(!food.consumes);
}

#[test]
fn placing_is_refused_in_the_player_or_on_solid_ground() {
    let mut s = site(IVec3::new(5, 10, 5), 0, 0);
    s.replaceable = false;
    let p = plan_placement(1, 0, &s);
    assert!(p.writes.is_empty() && !p.consumes);
    let mut s = site(IVec3::new(5, 10, 5), 0, 0);
    s.player = IVec3::new(5, 10, 5);
    assert!(plan_placement(1, 0, &s).writes.is_empty());
    s.player = IVec3::new(5, 11, 5);
    assert!(plan_placement(1, 0, &s).writes.is_empty());
    s.player = IVec3::new(5, 9, 5);
    assert_eq!(plan_placement(1, 0, &s).writes.len(), 1);
}

#[test]
fn placing_oriented_blocks() {
    let p = plan_placement(20, 2, &site(IVec3::new(1, 2, 3), 0, 0));
    assert_eq!(p.writes, vec![(IVec3::new(1, 2, 3), 20 | (2 << 16))]);
    let p = plan_placement(45, 3, &site(IVec3::new(1, 2, 3), 0, 0));
    assert_eq!(p.writes, vec![(IVec3::new(1, 2, 3), 45 | (3 << 16))]);
    let p = plan_placement(21, 1, &site(IVec3::new(1, 2, 3), 0, 0));
    assert_eq!(p.writes, vec![(IVec3::new(1, 2, 3), 21 | (1 << 16))]);
}

#[test]
fn placing_a_door() {
    let p = plan_placement(19, 0, &site(IVec3::new(4, 20, 4), 0, 1));
    assert_eq!(p.writes, vec![(IVec3::new(4, 20, 4), 19), (IVec3::new(4, 21, 4), 19 | door::DOORTOP_BITS)]);
    assert!(p.consumes);
    let blocked = plan_placement(19, 0, &site(IVec3::new(4, 20, 4), 1, 1));
    assert!(blocked.writes.is_empty());
    assert!(blocked.consumes);
    let floating = plan_placement(19, 0, &site(IVec3::new(4, 20, 4), 0, 0));
    assert!(floating.writes.is_empty());
}

#[test]
fn placing_a_double_door() {
    let mut s = site(IVec3::new(4, 20, 4), 0, 1);
    s.right = 19 | door::OPPOSITEDOOR_BITS;
    s.right_up = 19 | door::DOORTOP_BITS | door::OPPOSITEDOOR_BITS;
    let p = plan_placement(19, 0, &s);
    assert_eq!(
        p.writes,
        vec![
            (IVec3::new(5, 20, 4), 19),
            (IVec3::new(5, 21, 4), 19 | door::DOORTOP_BITS),
            (IVec3::new(4, 20, 4), 19 | door::OPPOSITEDOOR_BITS),
            (IVec3::new(4, 21, 4), 19 | door::DOORTOP_BITS | door::OPPOSITEDOOR_BITS),
        ]
    );
    let mut s = site(IVec3::new(4, 20, 4), 0, 1);
    s.left = 19 | (1 << 16);
    let p = plan_placement(19, 1, &s);
    assert_eq!(p.writes.len(), 4);
    assert_eq!(p.writes[0].0, IVec3::new(4, 20, 3));
    let mut s = site(IVec3::new(4, 20, 4), 0, 1);
    s.right = 19 | (2 << 16);
    assert_eq!(plan_placement(19, 0, &s).writes.len(), 2);
}
