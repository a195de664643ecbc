use vstd::prelude::*;

verus! {

/// The player's hot bar: eight slots, each an item id and how many of it.
#[derive(Clone, Copy)]
pub struct Inventory {
    pub dirty: bool,
    pub inv: [(u32, u32); 8],
}

/// The contents of a chest: four rows of eight slots.
#[derive(Clone, Copy)]
pub struct ChestInventory {
    pub dirty: bool,
    pub inv: [(u32, u32); 32],
}

/// How many items of kind `id` the slots hold in all.
pub open spec fn count_of(s: Seq<(u32, u32)>, id: u32) -> int
    decreases s.len(),
{
    if s.len() == 0 {
        0
    } else {
        count_of(s.drop_last(), id) + if s.last().0 == id {
            s.last().1 as int
        } else {
            0
        }
    }
}

/// What one slot adds to the count of kind `id`.
pub open spec fn slot_count(slot: (u32, u32), id: u32) -> int {
    if slot.0 == id {
        slot.1 as int
    } else {
        0
    }
}

/// Slots whose id is 0 (empty slots) hold no items.
pub open spec fn empty_slots_hold_nothing(s: Seq<(u32, u32)>) -> bool {
    forall|i: int| 0 <= i < s.len() && #[trigger] s[i].0 == 0 ==> s[i].1 == 0
}

/// The index of the first slot at or after `i` whose id is `id`, or the length
/// of `s` when there is none.
pub open spec fn first_with_from(s: Seq<(u32, u32)>, id: u32, i: int) -> int
    decreases s.len() - i,
{
    if i < 0 || i >= s.len() {
        s.len() as int
    } else if s[i].0 == id {
        i
    } else {
        first_with_from(s, id, i + 1)
    }
}

/// The index of the first slot whose id is `id`, or the length of `s` when there is none.
pub open spec fn first_with(s: Seq<(u32, u32)>, id: u32) -> int {
    first_with_from(s, id, 0)
}

/// `first_with_from` finds the first match at or after `i`.
pub proof fn lemma_first_with_from(s: Seq<(u32, u32)>, id: u32, i: int)
    requires
        0 <= i <= s.len(),
    ensures
        i <= first_with_from(s, id, i) <= s.len(),
        first_with_from(s, id, i) < s.len() ==> s[first_with_from(s, id, i)].0 == id,
        forall|j: int| i <= j < first_with_from(s, id, i) ==> s[j].0 != id,
    decreases s.len() - i,
{
    if i < s.len() && s[i].0 != id {
        lemma_first_with_from(s, id, i + 1);
    }
}

/// Changing one slot changes each kind's count by what the slot held and now holds.
pub proof fn lemma_count_update(s: Seq<(u32, u32)>, i: int, v: (u32, u32), id: u32)
    requires
        0 <= i < s.len(),
    ensures
        count_of(s.update(i, v), id) == count_of(s, id) - slot_count(s[i], id) + slot_count(v, id),
    decreases s.len(),
{
    let t = s.update(i, v);
    if i == s.len() - 1 {
        assert(t.drop_last() =~= s.drop_last());
    } else {
        assert(t.drop_last() =~= s.drop_last().update(i, v));
        lemma_count_update(s.drop_last(), i, v, id);
    }
}

/// Counts are never negative.
pub proof fn lemma_count_nonneg(s: Seq<(u32, u32)>, id: u32)
    ensures
        count_of(s, id) >= 0,
    decreases s.len(),
{
    if s.len() > 0 {
        lemma_count_nonneg(s.drop_last(), id);
    }
}

/// The count over one more slot adds what that slot holds.
pub proof fn lemma_count_take_step(s: Seq<(u32, u32)>, i: int, id: u32)
    requires
        0 <= i < s.len(),
    ensures
        count_of(s.take(i + 1), id) == count_of(s.take(i), id) + slot_count(s[i], id),
{
    assert(s.take(i + 1).drop_last() =~= s.take(i));
}


impl Inventory {
    /// Puts `item` into slot `index` and gives back what the slot held.
    pub fn replace_slot(&mut self, index: usize, item: (u32, u32)) -> (was: (u32, u32))
        requires
            index < 8,
        ensures
            was == old(self).inv@[index as int],
            final(self).inv@ == old(self).inv@.update(index as int, item),
            final(self).dirty == old(self).dirty,
    {
        let was = self.inv[index];
        self.inv[index] = item;
        was
    }
}

impl ChestInventory {
    /// Puts `item` into slot `index` and gives back what the slot held.
    pub fn replace_slot(&mut self, index: usize, item: (u32, u32)) -> (was: (u32, u32))
        requires
            index < 32,
        ensures
            was == old(self).inv@[index as int],
            final(self).inv@ == old(self).inv@.update(index as int, item),
            final(self).dirty == old(self).dirty,
    {
        let was = self.inv[index];
        self.inv[index] = item;
        was
    }
}

/// Replacing a slot and then putting back what it gave up restores the slots, and
/// a replacement changes each kind's count by what left and what came in.
pub proof fn law_replace_slot_undone(s: Seq<(u32, u32)>, index: int, item: (u32, u32), id: u32)
    requires
        0 <= index < s.len(),
    ensures
        s.update(index, item).update(index, s[index]) == s,
        count_of(s.update(index, item), id) == count_of(s, id) - slot_count(s[index], id)
            + slot_count(item, id),
{
    assert(s.update(index, item).update(index, s[index]) =~= s);
    lemma_count_update(s, index, item, id);
}

} // verus!
