use vstd::prelude::*;

verus! {

/// Facts about the planets (dimensions) a world can be.
pub struct Planets {}

impl Planets {
    /// The inclusive range of voxel-model indices that world generation stamps on a planet.
    pub fn get_voxel_model_index_range(dim_id: u32) -> (r: (usize, usize))
        ensures
            dim_id == 0 ==> r == (0usize, 13usize),
            dim_id == 1 ==> r == (14usize, 16usize),
            dim_id > 1 ==> r == (0usize, 0usize),
    {
        match dim_id {
            0 => (0, 13),
            1 => (14, 16),
            _ => (0, 0),
        }
    }

    /// The block ids world generation may stamp models on: grass and mulch, or sand on planet 1.
    pub fn get_floor_blocks(dim_id: u32) -> (v: Vec<u32>)
        ensures
            dim_id == 1 ==> v@ == seq![1u32],
            dim_id != 1 ==> v@ == seq![3u32, 34u32],
    {
        match dim_id {
            0 => vec![3, 34],
            1 => vec![1],
            _ => vec![3, 34],
        }
    }

    /// The sound a mob model makes, if any.
    pub fn get_mob_sound(modelindex: usize) -> (s: Option<&'static str>)
        ensures
            modelindex == 6 ==> s is Some && s->0@ == "assets/sfx/cricket1.mp3"@,
            modelindex == 3 ==> s is Some && s->0@ == "assets/sfx/monster2.mp3"@,
            modelindex != 6 && modelindex != 3 ==> s is None,
    {
        match modelindex {
            6 => Some("assets/sfx/cricket1.mp3"),
            3 => Some("assets/sfx/monster2.mp3"),
            _ => None,
        }
    }
}

} // verus!
