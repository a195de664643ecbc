use vstd::prelude::*;

verus! {

/// The kind of material a block is made of, or that a tool is meant for.
#[derive(PartialEq, Eq, Structural, Clone, Copy, Debug)]
pub enum Material {
    Stone,
    Wood,
    Dirt,
    NoneOrNonTool,
}

/// The material a block id belongs to; ids without a listed material count as stone.
pub open spec fn block_material(block: u32) -> Material {
    if block == 4 || block == 3 || block == 34 || block == 1 || block == 48 {
        Material::Dirt
    } else if block == 6 || block == 10 || block == 19 || block == 20 || block == 21
        || block == 22 || block == 31 || block == 43 || block == 44 {
        Material::Wood
    } else {
        Material::Stone
    }
}

/// The material a tool id is made to break; ids that are no tool give `NoneOrNonTool`.
pub open spec fn tool_target_material(tool: u32) -> Material {
    if tool == 37 {
        Material::Stone
    } else if tool == 38 {
        Material::Dirt
    } else if tool == 39 {
        Material::Wood
    } else {
        Material::NoneOrNonTool
    }
}

/// The material a block is made of, which decides which tool breaks it fastest.
pub fn get_block_material(block: u32) -> (m: Material)
    ensures
        m == block_material(block),
{
    match block {
        5 | 9 | 12 | 13 | 35 => Material::Stone,
        4 | 3 | 34 | 1 | 48 => Material::Dirt,
        6 | 10 | 19 | 20 | 21 | 22 | 31 | 43 | 44 => Material::Wood,
        _ => Material::Stone,
    }
}

/// The material a tool is made for.
pub fn get_tools_target_material(tool: u32) -> (m: Material)
    ensures
        m == tool_target_material(tool),
{
    match tool {
        37 => Material::Stone,
        38 => Material::Dirt,
        39 => Material::Wood,
        _ => Material::NoneOrNonTool,
    }
}

} // verus!
