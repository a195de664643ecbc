use voxelland::chunk::LightColor;
use voxelland::light::{
    implicated_chunks, lit_offsets, passes_light, propagate_light, reach_offsets, remove_light, OriginLight,
    LIGHT_CELLS, LIGHT_REACH, SOURCE_CELL,
};
use voxelland::vec::{IVec2, IVec3};

fn cell(x: i32, y: i32, z: i32) -> usize {
    ((x + 7) * 225 + (y + 7) * 15 + (z + 7)) as usize
}

fn color(x: u16, y: u16, z: u16) -> LightColor {
    LightColor { x, y, z }
}

fn air() -> Vec<u32> {
    vec![0; LIGHT_CELLS]
}

#[test]
fn cube_constants() {
    assert_eq!(LIGHT_REACH, 7);
    assert_eq!(LIGHT_CELLS, 3375);
    assert_eq!(SOURCE_CELL, cell(0, 0, 0));
}

#[test]
fn offsets_in_cell_order() {
    let offs = reach_offsets();
    assert_eq!(offs.len(), 3375);
    assert_eq!(offs[0], (-7, -7, -7));
    assert_eq!(offs[SOURCE_CELL], (0, 0, 0));
    assert_eq!(offs[3374], (7, 7, 7));
    for (i, o) in offs.iter().enumerate() {
        assert_eq!(cell(o.0, o.1, o.2), i);
    }
}

#[test]
fn light_passes_through_clear_blocks() {
    assert!(passes_light(0));
    assert!(passes_light(2));
    assert!(passes_light(7));
    assert!(passes_light(0x1_0000 | 19));
    assert!(!passes_light(1));
    assert!(!passes_light(0x1_0000 | 1));
}

#[test]
fn white_light_in_open_air() {
    let f = propagate_light(&air(), color(15, 15, 15));
    assert_eq!(f.rays[SOURCE_CELL], Some(color(15, 15, 15)));
    assert_eq!(f.rays[cell(1, 0, 0)], Some(color(13, 13, 13)));
    assert_eq!(f.rays[cell(0, -2, 0)], Some(color(11, 11, 11)));
    assert_eq!(f.rays[cell(1, 1, 1)], Some(color(9, 9, 9)));
    assert_eq!(f.rays[cell(7, 0, 0)], Some(color(1, 1, 1)));
    assert_eq!(f.rays[cell(3, 2, 2)], Some(color(1, 1, 1)));
    assert_eq!(f.rays[cell(3, 3, 2)], None);
    assert_eq!(f.rays[cell(7, 7, 7)], None);
    assert_eq!(f.dirs[SOURCE_CELL], [true; 6]);
    assert_eq!(f.dirs[cell(7, 0, 0)], [false; 6]);
}

#[test]
fn every_lit_cell_is_passed_on() {
    let f = propagate_light(&air(), color(15, 15, 15));
    let offs = reach_offsets();
    let steps = [(-1, 0, 0), (1, 0, 0), (0, -1, 0), (0, 1, 0), (0, 0, 1), (0, 0, -1)];
    for (i, o) in offs.iter().enumerate() {
        if let Some(r) = f.rays[i] {
            let d = o.0.abs() + o.1.abs() + o.2.abs();
            assert_eq!(r.x as i32, (15 - 2 * d).max(0));
            if r.x > 1 {
                for s in steps.iter() {
                    let n = cell(o.0 + s.0, o.1 + s.1, o.2 + s.2);
                    assert!(f.rays[n].unwrap().x + 2 >= r.x);
                }
            }
        }
    }
}

#[test]
fn solid_block_is_lit_but_stops_light() {
    let mut blocks = air();
    blocks[cell(1, 0, 0)] = 1;
    let f = propagate_light(&blocks, color(15, 15, 15));
    assert_eq!(f.rays[cell(1, 0, 0)], Some(color(13, 13, 13)));
    assert_eq!(f.dirs[cell(1, 0, 0)], [false; 6]);
    assert_eq!(f.rays[cell(2, 0, 0)], Some(color(7, 7, 7)));
}

#[test]
fn coloured_light_dims_per_channel() {
    let f = propagate_light(&air(), color(7, 0, 10));
    assert_eq!(f.rays[cell(1, 0, 0)], Some(color(5, 0, 8)));
    assert_eq!(f.rays[cell(4, 0, 0)], Some(color(0, 0, 2)));
    assert_eq!(f.rays[cell(5, 0, 0)], Some(color(0, 0, 0)));
    assert_eq!(f.rays[cell(6, 0, 0)], None);
    let blue = propagate_light(&air(), color(0, 0, 15));
    assert_eq!(blue.rays[cell(0, 0, 1)], Some(color(0, 0, 13)));
}

#[test]
fn enclosed_source_lights_only_its_walls() {
    let mut blocks = vec![1; LIGHT_CELLS];
    blocks[SOURCE_CELL] = 18;
    let f = propagate_light(&blocks, color(15, 15, 15));
    let lit: Vec<usize> = (0..LIGHT_CELLS).filter(|i| f.rays[*i].is_some()).collect();
    assert_eq!(lit.len(), 7);
    assert_eq!(f.rays[cell(0, 1, 0)], Some(color(13, 13, 13)));
    assert_eq!(f.rays[cell(0, 2, 0)], None);
}

#[test]
fn removing_a_spread_light_clears_it() {
    let mut f = propagate_light(&air(), color(15, 15, 15));
    let touched = remove_light(&mut f);
    assert!(f.rays.iter().all(|r| r.is_none()));
    assert!(f.dirs.iter().all(|d| *d == [false; 6]));
    assert!(touched.contains(&(0, 0, 0)));
    assert!(touched.contains(&(1, 0, 0)));
    assert!(touched.contains(&(7, 0, 0)));
    assert!(!touched.contains(&(3, 3, 2)));
}

#[test]
fn removing_from_an_empty_field_touches_only_the_source() {
    let mut f = OriginLight { rays: vec![None; LIGHT_CELLS], dirs: vec![[false; 6]; LIGHT_CELLS] };
    let touched = remove_light(&mut f);
    assert_eq!(touched, vec![(0, 0, 0)]);
}

#[test]
fn removal_follows_only_marked_faces() {
    let mut f = OriginLight { rays: vec![None; LIGHT_CELLS], dirs: vec![[false; 6]; LIGHT_CELLS] };
    f.rays[SOURCE_CELL] = Some(color(15, 15, 15));
    f.dirs[SOURCE_CELL] = [false, true, false, false, false, false];
    f.rays[cell(1, 0, 0)] = Some(color(13, 13, 13));
    f.rays[cell(0, 1, 0)] = Some(color(13, 13, 13));
    let touched = remove_light(&mut f);
    assert_eq!(f.rays[SOURCE_CELL], None);
    assert_eq!(f.rays[cell(1, 0, 0)], None);
    assert_eq!(f.rays[cell(0, 1, 0)], Some(color(13, 13, 13)));
    assert_eq!(touched.len(), 2);
}

#[test]
fn lit_cells_that_spread() {
    let mut blocks = air();
    blocks[cell(1, 0, 0)] = 1;
    let f = propagate_light(&blocks, color(15, 15, 15));
    let lit = lit_offsets(&f, &blocks);
    assert!(lit.contains(&(0, 0, 0)));
    assert!(lit.contains(&(0, 1, 0)));
    assert!(!lit.contains(&(1, 0, 0)));
    assert!(!lit.contains(&(3, 3, 2)));
}

#[test]
fn chunks_around_a_source() {
    let origin = IVec3::new(14, 50, 0);
    let offs = vec![(0, 0, 0), (1, 0, 0), (0, 0, -1), (-1, 0, 0), (1, 0, -1)];
    let mut got: Vec<(i32, i32)> = implicated_chunks(origin, &offs).iter().map(|c| (c.x, c.y)).collect();
    got.sort();
    assert_eq!(got, vec![(0, -1), (1, -1), (1, 0)]);
    assert_eq!(implicated_chunks(IVec3::new(7, 0, 7), &vec![(1, 0, 0), (0, 3, 0)]), Vec::<IVec2>::new());
}
