use vstd::prelude::*;

verus! {

/// The slot a HUD element stands for: a chest slot, an inventory slot, or no slot (`Empty`).
#[derive(PartialEq, Eq, Structural, Clone, Copy, Debug)]
pub enum SlotIndexType {
    ChestSlot(i32),
    InvSlot(i32),
    Empty,
}

/// The number the HUD shader uses to pick out a slot: chest slots from 60 up,
/// inventory slots from 1 up, and 0 for no slot.
pub open spec fn slot_shader_number(slot: SlotIndexType) -> int {
    match slot {
        SlotIndexType::ChestSlot(n) => n + 60,
        SlotIndexType::InvSlot(n) => n + 1,
        SlotIndexType::Empty => 0,
    }
}

/// Whether computing the shader number in `i32` stays in range.
pub open spec fn shader_number_fits(slot: SlotIndexType) -> bool {
    i32::MIN <= slot_shader_number(slot) <= i32::MAX
}

/// The shader number of a slot (the value `ass_slot_to_shader_float` hands the
/// shader, before it is turned into a float).
pub fn ass_slot_to_shader_index(slot: &SlotIndexType) -> (n: i32)
    requires
        shader_number_fits(*slot),
    ensures
        n == slot_shader_number(*slot),
{
    match slot {
        SlotIndexType::ChestSlot(n) => n + 60,
        SlotIndexType::InvSlot(n) => n + 1,
        SlotIndexType::Empty => 0,
    }
}


/// What one of the two count cells under a slot shows.
#[derive(PartialEq, Eq, Structural, Clone, Copy, Debug)]
pub enum GlyphCell {
    /// Nothing.
    Blank,
    /// The character with this ASCII code.
    Glyph(u8),
    /// Whatever it showed before.
    Unchanged,
}

/// The two cells that show a slot's item count: nothing for an empty slot, the
/// digit in the right cell for counts below ten, both digits for counts below a
/// hundred. Larger counts show `++` where `mark_large` is set (the stack held by
/// the mouse) and leave the cells as they were elsewhere.
pub open spec fn count_cells_of(count: u32, mark_large: bool) -> (GlyphCell, GlyphCell) {
    if count == 0 {
        (GlyphCell::Blank, GlyphCell::Blank)
    } else if count < 10 {
        (GlyphCell::Blank, GlyphCell::Glyph((48 + count) as u8))
    } else if count < 100 {
        (GlyphCell::Glyph((48 + count / 10) as u8), GlyphCell::Glyph((48 + count % 10) as u8))
    } else if mark_large {
        (GlyphCell::Glyph(43), GlyphCell::Glyph(43))
    } else {
        (GlyphCell::Unchanged, GlyphCell::Unchanged)
    }
}

/// Chooses the two cells that show a slot's item count.
pub fn count_glyphs(count: u32, mark_large: bool) -> (r: (GlyphCell, GlyphCell))
    ensures
        r == count_cells_of(count, mark_large),
{
    if count == 0 {
        (GlyphCell::Blank, GlyphCell::Blank)
    } else if count < 10 {
        (GlyphCell::Blank, GlyphCell::Glyph((48 + count) as u8))
    } else if count < 100 {
        (GlyphCell::Glyph((48 + count / 10) as u8), GlyphCell::Glyph((48 + count % 10) as u8))
    } else if mark_large {
        (GlyphCell::Glyph(43), GlyphCell::Glyph(43))
    } else {
        (GlyphCell::Unchanged, GlyphCell::Unchanged)
    }
}

} // verus!
