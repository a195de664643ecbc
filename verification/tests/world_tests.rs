use voxelland::audio::SoundSeries;
use voxelland::chunk::{
    collision_predicate, face_visible, rebuild_queue, rerender_plan, spot_to_chunk_pos, vertex_light, AutomataChange,
    ChunkFacade, LightColor, LightRay, LightSegment, ReadyMesh, RebuildQueue, WorldBlocks, CH, CHUNKPOSDEFAULT, CW,
};
use voxelland::collisioncage::Side;
use voxelland::cube::CubeSide;
use voxelland::hud::{ass_slot_to_shader_index, SlotIndexType};
use voxelland::server_types::{Entry, MessageType, MOB_BATCH_SIZE};
use voxelland::streaming::{facade_order, needed_chunks};
use voxelland::terrain::{biome_palette, natural_block, TerrainSample, WATER_LEVEL};
use voxelland::vec::{IVec2, IVec3};

#[test]
fn world_constants() {
    assert_eq!(CW, 15);
    assert_eq!(CH, 256);
    assert_eq!(CHUNKPOSDEFAULT, 999999);
    assert_eq!(MOB_BATCH_SIZE, 16);
}

#[test]
fn chunk_of_positive_spots() {
    assert_eq!(spot_to_chunk_pos(&IVec3::new(0, 5, 0)), IVec2::new(0, 0));
    assert_eq!(spot_to_chunk_pos(&IVec3::new(14, 5, 15)), IVec2::new(0, 1));
    assert_eq!(spot_to_chunk_pos(&IVec3::new(30, 0, 44)), IVec2::new(2, 2));
}

#[test]
fn chunk_of_negative_spots_rounds_down() {
    assert_eq!(spot_to_chunk_pos(&IVec3::new(-1, 0, -15)), IVec2::new(-1, -1));
    assert_eq!(spot_to_chunk_pos(&IVec3::new(-16, 0, -30)), IVec2::new(-2, -2));
    assert_eq!(spot_to_chunk_pos(&IVec3::new(-31, 0, 0)), IVec2::new(-3, 0));
}

#[test]
fn chunk_contains_its_spots() {
    for x in -100..100 {
        let c = spot_to_chunk_pos(&IVec3::new(x, 0, 0));
        assert!(c.x * 15 <= x && x < c.x * 15 + 15);
    }
}

#[test]
fn extreme_spots() {
    assert_eq!(spot_to_chunk_pos(&IVec3::new(i32::MIN, 0, i32::MAX)), IVec2::new(-143165577, 143165576));
}

#[test]
fn collision() {
    assert!(!collision_predicate(0, false));
    assert!(!collision_predicate(2, false));
    assert!(!collision_predicate(23, false));
    assert!(!collision_predicate(0x1_0000 | 23, false));
    assert!(collision_predicate(0x1_0000, false));
    assert!(collision_predicate(1, false));
    assert!(collision_predicate(0, true));
    assert!(collision_predicate(2, true));
}

#[test]
fn rebuild_queues() {
    assert_eq!(rebuild_queue(true, true), RebuildQueue::Light);
    assert_eq!(rebuild_queue(false, true), RebuildQueue::Light);
    assert_eq!(rebuild_queue(true, false), RebuildQueue::User);
    assert_eq!(rebuild_queue(false, false), RebuildQueue::Background);
}

#[test]
fn faces() {
    assert!(face_visible(1, 0));
    assert!(face_visible(1, 2));
    assert!(face_visible(1, 7));
    assert!(!face_visible(1, 3));
    assert!(face_visible(2, 8));
    assert!(!face_visible(2, 2));
    assert!(!face_visible(8, 2));
    assert!(face_visible(8, 7));
    assert!(!face_visible(7, 1));
}

#[test]
fn corner_light() {
    assert_eq!(vertex_light(15, 0, false), 15);
    assert_eq!(vertex_light(15, 1, false), 12);
    assert_eq!(vertex_light(15, 2, true), 6);
    assert_eq!(vertex_light(8, 3, false), 0);
    assert_eq!(vertex_light(200, 0, false), 15);
    assert_eq!(vertex_light(10, 3, true), 0);
}

fn ray(x: u16, y: u16, z: u16) -> LightRay {
    LightRay { value: LightColor { x, y, z }, origin: IVec3::new(0, 0, 0), directions: vec![CubeSide::TOP] }
}

#[test]
fn light_sums_cap_at_full() {
    let seg = LightSegment { rays: vec![ray(10, 2, 0), ray(7, 3, 1)] };
    assert_eq!(seg.sum(), LightColor { x: 15, y: 5, z: 1 });
    let none = LightSegment { rays: vec![] };
    assert_eq!(none.sum(), LightColor { x: 0, y: 0, z: 0 });
}

#[test]
fn stored_blocks_read_back() {
    let mut w = WorldBlocks::new();
    let p = IVec3::new(3, 40, -7);
    assert_eq!(w.stored_blockat(p), None);
    w.set_block_no_sound(p, 5, false);
    assert_eq!(w.stored_blockat(p), Some(5));
    w.set_block_no_sound(p, 9, true);
    assert_eq!(w.stored_blockat(p), Some(9));
    w.set_block_no_sound(p, 4, false);
    assert_eq!(w.stored_blockat(p), Some(9));
    assert_eq!(w.stored_blockat(IVec3::new(3, 41, -7)), None);
    w.clear();
    assert_eq!(w.stored_blockat(p), None);
}

#[test]
fn rerender_single_chunk() {
    let p = rerender_plan(IVec3::new(16, 10, 3), 0, 1, false, false);
    assert!(!p.light);
    assert!(p.check_light_intercepts);
    assert_eq!(p.chunks, vec![IVec2::new(1, 0)]);
}

#[test]
fn rerender_neighbours_at_chunk_corner() {
    let p = rerender_plan(IVec3::new(0, 10, 0), 1, 0, true, false);
    assert!(!p.light);
    assert!(p.check_light_intercepts);
    let mut got: Vec<(i32, i32)> = p.chunks.iter().map(|c| (c.x, c.y)).collect();
    got.sort();
    assert_eq!(got, vec![(-1, 0), (0, -1), (0, 0)]);
}

#[test]
fn rerender_inside_chunk() {
    let p = rerender_plan(IVec3::new(7, 10, 7), 0, 18, true, false);
    assert!(p.light);
    assert!(!p.check_light_intercepts);
    assert_eq!(p.chunks, vec![IVec2::new(0, 0)]);
    let q = rerender_plan(IVec3::new(7, 10, 7), 30, 0, false, true);
    assert!(q.light);
    let r = rerender_plan(IVec3::new(7, 10, 7), 0, 1, false, true);
    assert!(!r.check_light_intercepts);
}

#[test]
fn records() {
    let m = ReadyMesh::new(3, &IVec2::new(1, 2), 10, 20, 30, 40);
    assert_eq!((m.geo_index, m.newpos, m.newlength, m.newtlength, m.newvlength, m.newwvlength), (3, IVec2::new(1, 2), 10, 20, 30, 40));
    let a = AutomataChange::new(2, IVec3::new(1, 2, 3), 0);
    assert_eq!((a.expectedhere, a.spot, a.changeto), (2, IVec3::new(1, 2, 3), 0));
    let f = ChunkFacade { geo_index: 0, used: false, pos: IVec2::new(CHUNKPOSDEFAULT, CHUNKPOSDEFAULT) };
    assert!(!f.used);
    let e = Entry { key: IVec3::new(1, 2, 3), value: 7 };
    assert_eq!(e.value, 7);
}

#[test]
fn vector_sum() {
    assert_eq!(IVec3::new(1, -2, 3).add(IVec3::new(-1, 2, 4)), IVec3::new(0, 0, 7));
}

#[test]
fn cage_sides() {
    for i in 0..24 {
        assert_eq!(Side::from_primitive(i).index(), i);
    }
    assert_eq!(Side::from_primitive(99), Side::ROOF);
    assert_eq!(Side::ROOF.position_offset(), IVec3::new(0, 2, 0));
    assert_eq!(Side::FLOOR.position_offset(), IVec3::new(0, -1, 0));
    assert_eq!(Side::BOTTOMBACKEDGE.position_offset(), IVec3::new(0, -1, -1));
    assert_eq!(Side::FRONTLEFTTOP.position_offset(), IVec3::new(-1, 1, 1));
}

#[test]
fn cube_sides() {
    assert_eq!(CubeSide::from_primitive(0), CubeSide::LEFT);
    assert_eq!(CubeSide::from_primitive(3), CubeSide::TOP);
    assert_eq!(CubeSide::from_primitive(5), CubeSide::BACK);
    assert_eq!(CubeSide::from_primitive(6), CubeSide::LEFT);
}

#[test]
fn hud_shader_numbers() {
    assert_eq!(ass_slot_to_shader_index(&SlotIndexType::ChestSlot(0)), 60);
    assert_eq!(ass_slot_to_shader_index(&SlotIndexType::ChestSlot(19)), 79);
    assert_eq!(ass_slot_to_shader_index(&SlotIndexType::InvSlot(4)), 5);
    assert_eq!(ass_slot_to_shader_index(&SlotIndexType::Empty), 0);
}

#[test]
fn message_names() {
    assert_eq!(MessageType::Empty.name(), "None");
    assert_eq!(MessageType::RequestMyID.name(), "Requestmyid");
    assert_eq!(MessageType::MultiBlockSet.name(), "MultiBlockSet");
    assert_eq!(MessageType::BlockSet.name(), "BlockSet");
}

#[test]
fn sound_series_cycles() {
    let mut s = SoundSeries::new(vec!["a".to_string(), "b".to_string(), "c".to_string()]);
    assert_eq!(s.index, 0);
    assert_eq!(s.next_sound_name(), "a");
    assert_eq!(s.next_sound_name(), "b");
    assert_eq!(s.next_sound_name(), "c");
    assert_eq!(s.next_sound_name(), "a");
    s.increment();
    s.increment();
    assert_eq!(s.index, 0);
}

#[test]
fn chunks_to_load_nearest_first() {
    let got = needed_chunks(IVec2::new(0, 0), 1, &vec![]);
    assert_eq!(got, vec![IVec2::new(0, 0), IVec2::new(-1, 0), IVec2::new(0, -1), IVec2::new(-1, -1)]);
    let got = needed_chunks(IVec2::new(0, 0), 1, &vec![IVec2::new(0, 0), IVec2::new(5, 5)]);
    assert_eq!(got, vec![IVec2::new(-1, 0), IVec2::new(0, -1), IVec2::new(-1, -1)]);
    assert_eq!(needed_chunks(IVec2::new(3, 4), 0, &vec![]), Vec::<IVec2>::new());
}

#[test]
fn chunks_to_load_cover_the_square() {
    let user = IVec2::new(10, -20);
    let got = needed_chunks(user, 4, &vec![]);
    assert_eq!(got.len(), 64);
    let d = |c: &IVec2| (c.x - user.x).pow(2) + (c.y - user.y).pow(2);
    for w in got.windows(2) {
        assert!(d(&w[0]) <= d(&w[1]));
    }
    assert_eq!(got[0], user);
    assert_eq!(got[63], IVec2::new(6, -24));
}

#[test]
fn chunk_slots_reused_first() {
    let near = ChunkFacade { geo_index: 0, used: true, pos: IVec2::new(1, 0) };
    let free = ChunkFacade { geo_index: 1, used: false, pos: IVec2::new(0, 0) };
    let far = ChunkFacade { geo_index: 2, used: true, pos: IVec2::new(3, 1) };
    let near2 = ChunkFacade { geo_index: 3, used: true, pos: IVec2::new(-1, -1) };
    let order: Vec<usize> = facade_order(&vec![near, free, far, near2], IVec2::new(0, 0), 2).iter().map(|f| f.geo_index).collect();
    assert_eq!(order, vec![1, 2, 0, 3]);
    let unset = ChunkFacade { geo_index: 4, used: true, pos: IVec2::new(CHUNKPOSDEFAULT, CHUNKPOSDEFAULT) };
    let order: Vec<usize> = facade_order(&vec![near, unset], IVec2::new(0, 0), 8).iter().map(|f| f.geo_index).collect();
    assert_eq!(order, vec![4, 0]);
}

#[test]
fn terrain_palettes() {
    let stony = biome_palette(true, true);
    assert_eq!((stony.underdirt, stony.surface, stony.undersurface, stony.liquid, stony.beach), (1, 1, 1, 2, 1));
    let grass = biome_palette(false, false);
    assert_eq!((grass.underdirt, grass.surface, grass.undersurface, grass.liquid, grass.beach), (5, 3, 4, 2, 1));
    assert_eq!(biome_palette(false, true).surface, 34);
}

fn sample(solid: bool, solid_10_above: bool, ore: bool, above_beach: bool, solid_5_above: bool, open_1_above: bool, cave: bool) -> TerrainSample {
    TerrainSample { solid, solid_10_above, ore, above_beach, solid_5_above, open_1_above, cave }
}

#[test]
fn terrain_blocks() {
    let p = biome_palette(false, false);
    assert_eq!(natural_block(0, &p, &sample(false, false, false, false, false, false, true)), 15);
    assert_eq!(natural_block(12, &p, &sample(true, true, true, false, false, false, false)), 35);
    assert_eq!(natural_block(12, &p, &sample(true, true, false, false, false, false, false)), 5);
    assert_eq!(natural_block(12, &p, &sample(true, true, true, false, false, false, true)), 0);
    assert_eq!(natural_block(40, &p, &sample(true, false, false, true, false, true, false)), 3);
    assert_eq!(natural_block(40, &p, &sample(true, false, false, true, false, false, false)), 4);
    assert_eq!(natural_block(40, &p, &sample(true, false, false, false, true, true, false)), 3);
    assert_eq!(natural_block(25, &p, &sample(true, false, false, false, false, true, false)), 1);
    assert_eq!(natural_block(10, &p, &sample(false, false, false, false, false, false, true)), 2);
    assert_eq!(natural_block(WATER_LEVEL, &p, &sample(false, false, false, false, false, false, false)), 0);
    assert_eq!(natural_block(WATER_LEVEL - 1, &p, &sample(false, false, false, false, false, false, false)), 2);
}
