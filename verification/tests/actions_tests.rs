use voxelland::chunk::snow_change;
use voxelland::collisioncage::{cage_spots, solid_sides, Side, CAGE_BOXES};
use voxelland::game::{
    click_request, click_slot, jump_block_effect, press_escape, ControlsState, HeldKey, JumpEffect,
    Overlays,
};
use voxelland::hud::{count_glyphs, GlyphCell};
use voxelland::placement::{plan_break, BreakKind};
use voxelland::savefile::line_number;
use voxelland::terrain::{stamp_writes, StampVoxel};
use voxelland::vec::{IVec2, IVec3};

#[test]
fn breaking_crystal_clears_cluster() {
    let p = plan_break(16, IVec3::new(1, 2, 3));
    assert_eq!(p.kind, BreakKind::Cluster);
    assert!(p.clears.is_empty());
    assert_eq!(p.drop, Some((17, 1)));
}

#[test]
fn breaking_door_clears_both_halves() {
    let top = 19 | 0b1000_0000_0000_0000_0000;
    let p = plan_break(top, IVec3::new(4, 10, 4));
    assert_eq!(p.kind, BreakKind::Door);
    assert_eq!(p.clears, vec![IVec3::new(4, 10, 4), IVec3::new(4, 9, 4)]);
    assert_eq!(p.drop, None);
    let p = plan_break(19, IVec3::new(4, 10, 4));
    assert_eq!(p.clears, vec![IVec3::new(4, 10, 4), IVec3::new(4, 11, 4)]);
}

#[test]
fn breaking_plain_block_drops_it() {
    let p = plan_break(5 | (2 << 16), IVec3::new(0, 0, 0));
    assert_eq!(p.kind, BreakKind::Single);
    assert_eq!(p.clears, vec![IVec3::new(0, 0, 0)]);
    assert_eq!(p.drop, Some((5, 1)));
    let air = plan_break(0, IVec3::new(0, 0, 0));
    assert_eq!(air.drop, None);
    assert_eq!(air.clears, vec![IVec3::new(0, 0, 0)]);
}

#[test]
fn jump_blocks() {
    assert_eq!(jump_block_effect(40), JumpEffect::SwitchTo(41));
    assert_eq!(jump_block_effect(41), JumpEffect::SwitchTo(40));
    assert_eq!(jump_block_effect(41 | (1 << 16)), JumpEffect::SwitchTo(40));
    assert_eq!(jump_block_effect(42), JumpEffect::Bounce);
    assert_eq!(jump_block_effect(3), JumpEffect::Nothing);
    if let JumpEffect::SwitchTo(next) = jump_block_effect(40) {
        assert_eq!(jump_block_effect(next), JumpEffect::SwitchTo(40));
    }
}

#[test]
fn count_cells() {
    assert_eq!(count_glyphs(0, false), (GlyphCell::Blank, GlyphCell::Blank));
    assert_eq!(count_glyphs(7, false), (GlyphCell::Blank, GlyphCell::Glyph(b'7')));
    assert_eq!(count_glyphs(42, false), (GlyphCell::Glyph(b'4'), GlyphCell::Glyph(b'2')));
    assert_eq!(count_glyphs(99, true), (GlyphCell::Glyph(b'9'), GlyphCell::Glyph(b'9')));
    assert_eq!(count_glyphs(100, true), (GlyphCell::Glyph(b'+'), GlyphCell::Glyph(b'+')));
    assert_eq!(count_glyphs(100, false), (GlyphCell::Unchanged, GlyphCell::Unchanged));
}

#[test]
fn remote_click_asks_for_local_result() {
    let cases = [((3, 4), (3, 5)), ((3, 4), (7, 1)), ((0, 0), (9, 2))];
    for (slot, mouse) in cases {
        let asked = click_request(slot, mouse);
        let mut s = slot;
        let mut m = mouse;
        click_slot(&mut s, &mut m);
        assert_eq!(asked, s);
    }
    assert_eq!(click_request((3, 4), (3, 5)), (3, 9));
    assert_eq!(click_request((3, 4), (7, 1)), (7, 1));
}

#[test]
fn held_keys() {
    let mut c = ControlsState::new();
    c.set_held(HeldKey::Forward, true);
    c.set_held(HeldKey::Sprint, true);
    assert!(c.forward && c.shift && !c.back && !c.left && !c.right && !c.up);
    c.set_held(HeldKey::Forward, false);
    assert!(!c.forward && c.shift);
    c.set_held(HeldKey::Backward, true);
    c.set_held(HeldKey::Left, true);
    c.set_held(HeldKey::Right, true);
    c.set_held(HeldKey::Up, true);
    assert!(c.back && c.left && c.right && c.up);
}

#[test]
fn escape_opens_and_closes() {
    let playing = Overlays { menu_open: false, chest_open: false, crafting_open: false };
    let (menu, capture) = press_escape(playing);
    assert!(menu.menu_open && !capture);
    let (back, capture) = press_escape(menu);
    assert_eq!(back, playing);
    assert!(capture);
    let chest = Overlays { menu_open: false, chest_open: true, crafting_open: true };
    let (closed, capture) = press_escape(chest);
    assert_eq!(closed, playing);
    assert!(capture);
}

#[test]
fn stamping_a_model() {
    let voxels = vec![
        StampVoxel { x: 0, y: 0, z: 0, size_x: 4, size_y: 2, color: 5 },
        StampVoxel { x: 3, y: 1, z: 2, size_x: 4, size_y: 2, color: 200 },
        StampVoxel { x: 1, y: 1, z: 0, size_x: 4, size_y: 2, color: 0 },
    ];
    let (writes, chunks) = stamp_writes(IVec3::new(15, 40, 0), &voxels);
    assert_eq!(
        writes,
        vec![
            (IVec3::new(13, 40, -1), 5),
            (IVec3::new(16, 42, 0), 47),
            (IVec3::new(14, 40, 0), 0),
        ]
    );
    assert_eq!(chunks, vec![IVec2::new(0, -1), IVec2::new(1, 0), IVec2::new(0, 0)]);
}

#[test]
fn snow_falls_on_topmost_grass() {
    let column = vec![1, 3, 4, 3 | (1 << 16), 0, 0];
    let change = snow_change(&column, 7, -2).unwrap();
    assert_eq!(change.spot, IVec3::new(7, 3, -2));
    assert_eq!(change.expectedhere, 3);
    assert_eq!(change.changeto, 48);
    assert!(snow_change(&vec![1, 2, 0], 0, 0).is_none());
}

#[test]
fn saved_numbers() {
    let u32max = u32::MAX as u64;
    assert_eq!(line_number(&b"23119232".to_vec(), u32max), Some(23119232));
    assert_eq!(line_number(&b"7 trailing words".to_vec(), u32max), Some(7));
    assert_eq!(line_number(&b"+12".to_vec(), u32max), Some(12));
    assert_eq!(line_number(&b"4294967295".to_vec(), u32max), Some(4294967295));
    assert_eq!(line_number(&b"4294967296".to_vec(), u32max), None);
    assert_eq!(line_number(&b"1".to_vec(), 255), Some(1));
    assert_eq!(line_number(&b"256".to_vec(), 255), None);
    assert_eq!(line_number(&b"".to_vec(), u32max), None);
    assert_eq!(line_number(&b"+".to_vec(), u32max), None);
    assert_eq!(line_number(&b"-1".to_vec(), u32max), None);
    assert_eq!(line_number(&b"12a".to_vec(), u32max), None);
    assert_eq!(line_number(&b" 12".to_vec(), u32max), None);
    for text in ["0", "17", "+9", "99999999999", "3x", ""] {
        let ours = line_number(&text.as_bytes().to_vec(), u32max).map(|v| v as u32);
        assert_eq!(ours, text.parse::<u32>().ok());
    }
}

#[test]
fn cage_checks_eighteen_blocks() {
    let spots = cage_spots(IVec3::new(10, 20, 30));
    assert_eq!(spots.len(), CAGE_BOXES);
    assert_eq!(spots[Side::ROOF.index()], IVec3::new(10, 22, 30));
    assert_eq!(spots[Side::FLOOR.index()], IVec3::new(10, 19, 30));
    assert_eq!(spots[Side::FRONTLEFTBOTTOM.index()], IVec3::new(9, 20, 31));
}

#[test]
fn solid_sides_in_order() {
    let mut readings = vec![false; CAGE_BOXES];
    readings[1] = true;
    readings[5] = true;
    readings[17] = true;
    assert_eq!(solid_sides(&readings), vec![Side::FLOOR, Side::RIGHTBOTTOM, Side::FRONTLEFTBOTTOM]);
    assert!(solid_sides(&vec![false; CAGE_BOXES]).is_empty());
    assert_eq!(solid_sides(&vec![true; CAGE_BOXES]).len(), CAGE_BOXES);
}
