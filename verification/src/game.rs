use vstd::prelude::*;

use crate::inventory::{
    Inventory, count_of, slot_count, empty_slots_hold_nothing, first_with, first_with_from, lemma_count_nonneg,
    lemma_count_take_step, lemma_count_update, lemma_first_with_from,
};
use crate::recipes::{Recipe, recipe_view};

verus! {

/// The number of slots in a row of the hot bar, inventory and chest views.
pub const ROWLENGTH: i32 = 8;

/// What a new player, or one who just died, carries: a crafting bench and ten of item 49.
pub const STARTINGITEMS: [(u32, u32); 8] = [(31, 1), (49, 10), (0, 0), (0, 0), (0, 0), (0, 0), (0, 0), (0, 0)];

/// The index of the first slot whose id is `id`, or 8 when there is none.
fn find_slot(inv: &[(u32, u32); 8], id: u32) -> (i: usize)
    ensures
        i == first_with(inv@, id),
{
    proof {
        lemma_first_with_from(inv@, id, 0);
    }
    let mut i: usize = 0;
    while i < 8
        invariant
            0 <= i <= 8,
            inv@.len() == 8,
            first_with(inv@, id) == first_with_from(inv@, id, i as int),
        decreases 8 - i,
    {
        if inv[i].0 == id {
            return i;
        }
        i = i + 1;
    }
    i
}

/// Whether adding `count` items of kind `id` to this inventory stays within `u32`
/// (it can only overflow where a slot already holds that kind).
pub open spec fn add_fits(s: Seq<(u32, u32)>, id: u32, count: u32) -> bool {
    first_with(s, id) < s.len() ==> s[first_with(s, id)].1 + count <= u32::MAX
}

/// The slots after adding `count` items of kind `id`: onto the first slot that
/// already holds that kind, or else into the first empty slot; `None` when there
/// is neither.
pub open spec fn inventory_after_add(s: Seq<(u32, u32)>, id: u32, count: u32) -> Option<Seq<(u32, u32)>> {
    let f = first_with(s, id);
    let e = first_with(s, 0);
    if f < s.len() {
        Some(s.update(f, (id, (s[f].1 + count) as u32)))
    } else if e < s.len() {
        Some(s.update(e, (id, count)))
    } else {
        None
    }
}

/// Puts `count` items of kind `id` into the inventory: onto the first slot that
/// already holds that kind, or else into the first empty slot (id 0). When there
/// is neither, nothing changes and the result is `Err(false)`.
pub fn add_to_inventory(inv: &mut Inventory, id: u32, count: u32) -> (r: Result<bool, bool>)
    requires
        add_fits(old(inv).inv@, id, count),
    ensures
        match inventory_after_add(old(inv).inv@, id, count) {
            Some(t) => r == Ok::<bool, bool>(true) && final(inv).dirty && final(inv).inv@ == t,
            None => r == Err::<bool, bool>(false) && *final(inv) == *old(inv),
        },
{
    let f = find_slot(&inv.inv, id);
    if f < 8 {
        let c = inv.inv[f].1;
        inv.inv[f] = (id, c + count);
        inv.dirty = true;
        Ok(true)
    } else {
        let e = find_slot(&inv.inv, 0);
        if e < 8 {
            inv.inv[e] = (id, count);
            inv.dirty = true;
            Ok(true)
        } else {
            Err(false)
        }
    }
}

/// Adding items of a kind other than the empty kind to an inventory whose empty
/// slots hold nothing fails only when no slot holds that kind and no slot is
/// empty; when it succeeds that kind's count grows by exactly the number added,
/// every other kind keeps its count, and empty slots still hold nothing.
pub proof fn law_add_to_inventory_counts(s: Seq<(u32, u32)>, id: u32, count: u32, other: u32)
    requires
        id != 0,
        other != id,
        empty_slots_hold_nothing(s),
        add_fits(s, id, count),
    ensures
        inventory_after_add(s, id, count) is None <==> (forall|i: int|
            0 <= i < s.len() ==> s[i].0 != id && s[i].0 != 0),
        inventory_after_add(s, id, count) matches Some(t) ==> {
            &&& count_of(t, id) == count_of(s, id) + count
            &&& count_of(t, other) == count_of(s, other)
            &&& empty_slots_hold_nothing(t)
        },
{
    lemma_first_with_from(s, id, 0);
    lemma_first_with_from(s, 0, 0);
    let f = first_with(s, id);
    let e = first_with(s, 0);
    if f < s.len() {
        lemma_count_update(s, f, (id, (s[f].1 + count) as u32), id);
        lemma_count_update(s, f, (id, (s[f].1 + count) as u32), other);
    } else if e < s.len() {
        lemma_count_update(s, e, (id, count), id);
        lemma_count_update(s, e, (id, count), other);
    }
    if inventory_after_add(s, id, count) is None {
        assert forall|i: int| 0 <= i < s.len() implies s[i].0 != id && s[i].0 != 0 by {}
    } else {
        assert(!(forall|i: int| 0 <= i < s.len() ==> s[i].0 != id && s[i].0 != 0)) by {
            if f < s.len() {
                assert(s[f].0 == id);
            } else {
                assert(s[e].0 == 0);
            }
        }
    }
}

/// Whether the slots hold, for every use of a recipe, at least as many items of
/// that kind as the use asks for (each use checked against the full counts).
pub open spec fn has_requirements(s: Seq<(u32, u32)>, uses: Seq<(u32, u32)>) -> bool {
    forall|j: int| 0 <= j < uses.len() ==> count_of(s, (#[trigger] uses[j]).0) >= uses[j].1
}

/// How many items of kind `id` are taken from slot `i` when `need` of them are
/// taken from the slots in order: the slot gives what is still needed after the
/// earlier slots gave theirs, up to what it holds.
pub open spec fn taken_at(s: Seq<(u32, u32)>, id: u32, need: int, i: int) -> int {
    if s[i].0 == id {
        let still = need - count_of(s.take(i), id);
        let still = if still < 0 { 0 } else { still };
        if still < s[i].1 { still } else { s[i].1 as int }
    } else {
        0
    }
}

/// Slot `i` after `need` items of kind `id` are taken from the slots in order; a
/// slot emptied by the taking becomes an empty slot.
pub open spec fn slot_after_take(s: Seq<(u32, u32)>, id: u32, need: int, i: int) -> (u32, u32) {
    let t = taken_at(s, id, need, i);
    if t > 0 {
        if t == s[i].1 { (0u32, 0u32) } else { (id, (s[i].1 - t) as u32) }
    } else {
        s[i]
    }
}

/// The slots after `need` items of kind `id` are taken from them, first slots first.
pub open spec fn take_items(s: Seq<(u32, u32)>, id: u32, need: int) -> Seq<(u32, u32)> {
    Seq::new(s.len(), |i: int| slot_after_take(s, id, need, i))
}

/// The slots after every use of a recipe is taken, in the order of the uses.
pub open spec fn take_all(s: Seq<(u32, u32)>, uses: Seq<(u32, u32)>) -> Seq<(u32, u32)>
    decreases uses.len(),
{
    if uses.len() == 0 {
        s
    } else {
        take_items(take_all(s, uses.drop_last()), uses.last().0, uses.last().1 as int)
    }
}

/// Whether slot `i` can take the made items: it is empty or holds that kind, and
/// the sum stays within a stack of 999.
pub open spec fn can_hold_result(s: Seq<(u32, u32)>, made: (u32, u32), i: int) -> bool {
    (s[i].0 == 0 || s[i].0 == made.0) && s[i].1 + made.1 <= 999
}

/// The index of the first slot at or after `i` that can take the made items, or
/// the length of `s` when there is none.
pub open spec fn result_slot_from(s: Seq<(u32, u32)>, made: (u32, u32), i: int) -> int
    decreases s.len() - i,
{
    if i < 0 || i >= s.len() {
        s.len() as int
    } else if can_hold_result(s, made, i) {
        i
    } else {
        result_slot_from(s, made, i + 1)
    }
}

/// `result_slot_from` finds the first slot at or after `i` that can take the made items.
pub proof fn lemma_result_slot_from(s: Seq<(u32, u32)>, made: (u32, u32), i: int)
    requires
        0 <= i <= s.len(),
    ensures
        i <= result_slot_from(s, made, i) <= s.len(),
        result_slot_from(s, made, i) < s.len() ==> can_hold_result(s, made, result_slot_from(s, made, i)),
        forall|j: int| i <= j < result_slot_from(s, made, i) ==> !can_hold_result(s, made, j),
    decreases s.len() - i,
{
    if i < s.len() && !can_hold_result(s, made, i) {
        lemma_result_slot_from(s, made, i + 1);
    }
}

/// The index of the first slot that can take the made items, or the length when none can.
pub open spec fn result_slot(s: Seq<(u32, u32)>, made: (u32, u32)) -> int {
    result_slot_from(s, made, 0)
}

/// One crafting step on the slots, with the flag that says whether another step
/// may follow. Without the items the slots stay and the flag drops. With them the
/// uses are taken; the made items go to the first slot that can take them, or,
/// when none can, the uses stay taken and the flag drops.
pub open spec fn craft_once(
    s: Seq<(u32, u32)>,
    uses: Seq<(u32, u32)>,
    made: (u32, u32),
    more: bool,
) -> (Seq<(u32, u32)>, bool) {
    if !has_requirements(s, uses) {
        (s, false)
    } else {
        let t = take_all(s, uses);
        let k = result_slot(t, made);
        if k < t.len() {
            (t.update(k, (made.0, (t[k].1 + made.1) as u32)), more)
        } else {
            (t, false)
        }
    }
}

/// The slots and flag after `n` crafting steps, stopping once the flag drops.
pub open spec fn craft_steps(s: Seq<(u32, u32)>, uses: Seq<(u32, u32)>, made: (u32, u32), n: nat) -> (
    Seq<(u32, u32)>,
    bool,
)
    decreases n,
{
    if n == 0 {
        (s, true)
    } else {
        let prev = craft_steps(s, uses, made, (n - 1) as nat);
        if !prev.1 {
            prev
        } else {
            craft_once(prev.0, uses, made, prev.1)
        }
    }
}

/// The number of items of kind `id` the slots hold, summed in 64 bits.
fn total_of(inv: &[(u32, u32); 8], id: u32) -> (n: u64)
    ensures
        n == count_of(inv@, id),
{
    let mut n: u64 = 0;
    let mut i: usize = 0;
    while i < 8
        invariant
            0 <= i <= 8,
            inv@.len() == 8,
            n == count_of(inv@.take(i as int), id),
            n <= i * 0xFFFF_FFFF,
        decreases 8 - i,
    {
        proof {
            lemma_count_take_step(inv@, i as int, id);
        }
        if inv[i].0 == id {
            n = n + inv[i].1 as u64;
        }
        i = i + 1;
    }
    assert(inv@.take(8) =~= inv@);
    n
}

/// Takes `need` items of kind `id` from the slots, first slots first.
fn take_from_slots(inv: &mut [(u32, u32); 8], id: u32, need: u32)
    ensures
        final(inv)@ == take_items(old(inv)@, id, need as int),
{
    let ghost s = old(inv)@;
    let mut got: u32 = 0;
    let mut i: usize = 0;
    while i < 8
        invariant
            0 <= i <= 8,
            s.len() == 8,
            inv@.len() == 8,
            got <= need,
            got == (if count_of(s.take(i as int), id) < need { count_of(s.take(i as int), id) } else { need as int }),
            forall|j: int| 0 <= j < i ==> inv@[j] == slot_after_take(s, id, need as int, j),
            forall|j: int| i <= j < 8 ==> inv@[j] == s[j],
        decreases 8 - i,
    {
        proof {
            lemma_count_take_step(s, i as int, id);
            lemma_count_nonneg(s.take(i as int), id);
        }
        let slot = inv[i];
        if slot.0 == id && slot.1 > 0 && got < need {
            let want = need - got;
            let t = if want < slot.1 { want } else { slot.1 };
            if t == slot.1 {
                inv[i] = (0, 0);
            } else {
                inv[i] = (id, slot.1 - t);
            }
            got = got + t;
        }
        i = i + 1;
    }
    assert(inv@ =~= take_items(s, id, need as int));
}

/// The index of the first slot that can take the made items, or 8 when none can.
fn find_result_slot(inv: &[(u32, u32); 8], made: (u32, u32)) -> (k: usize)
    ensures
        k == result_slot(inv@, made),
{
    let mut i: usize = 0;
    while i < 8
        invariant
            0 <= i <= 8,
            inv@.len() == 8,
            result_slot(inv@, made) == result_slot_from(inv@, made, i as int),
        decreases 8 - i,
    {
        let slot = inv[i];
        if (slot.0 == 0 || slot.0 == made.0) && (slot.1 as u64) + (made.1 as u64) <= 999 {
            return i;
        }
        i = i + 1;
    }
    i
}

/// One crafting step on the inventory; `morepossible` drops when no further step
/// can follow (see `craft_once`).
pub fn craft_in_local_inv(recipe: &Recipe, inven: &mut Inventory, morepossible: &mut bool)
    ensures
        (final(inven).inv@, *final(morepossible)) == craft_once(
            old(inven).inv@,
            recipe.0@,
            recipe.1,
            *old(morepossible),
        ),
        final(inven).dirty == old(inven).dirty,
{
    let ghost s = inven.inv@;
    let ghost d = inven.dirty;
    let uses = &recipe.0;
    let hasreqs = holds_uses(&inven.inv, uses);
    if !hasreqs {
        *morepossible = false;
        return;
    }
    let mut j: usize = 0;
    while j < uses.len()
        invariant
            0 <= j <= uses@.len(),
            inven.inv@ == take_all(s, uses@.take(j as int)),
            inven.dirty == d,
        decreases uses@.len() - j,
    {
        let req = uses[j];
        take_from_slots(&mut inven.inv, req.0, req.1);
        assert(uses@.take(j + 1).drop_last() =~= uses@.take(j as int));
        j = j + 1;
    }
    assert(uses@.take(uses@.len() as int) =~= uses@);
    let made = recipe.1;
    let k = find_result_slot(&inven.inv, made);
    proof {
        lemma_result_slot_from(inven.inv@, made, 0);
    }
    if k < 8 {
        let c = inven.inv[k].1;
        inven.inv[k] = (made.0, c + made.1);
    } else {
        *morepossible = false;
    }
}

/// The counts over the first `i` slots after taking `need` items of kind `id`.
pub proof fn lemma_take_items_prefix(s: Seq<(u32, u32)>, id: u32, need: int, k: u32, i: int)
    requires
        need >= 0,
        0 <= i <= s.len(),
    ensures
        k == id ==> count_of(take_items(s, id, need).take(i), k) == count_of(s.take(i), id) - (if need
            < count_of(s.take(i), id) {
            need
        } else {
            count_of(s.take(i), id)
        }),
        k != id ==> count_of(take_items(s, id, need).take(i), k) == count_of(s.take(i), k),
    decreases i,
{
    let r = take_items(s, id, need);
    if i == 0 {
        assert(r.take(0) =~= Seq::<(u32, u32)>::empty());
        assert(s.take(0) =~= Seq::<(u32, u32)>::empty());
    } else {
        lemma_take_items_prefix(s, id, need, k, i - 1);
        lemma_count_take_step(r, i - 1, k);
        lemma_count_take_step(s, i - 1, k);
        lemma_count_nonneg(s.take(i - 1), id);
        assert(r[i - 1] == slot_after_take(s, id, need, i - 1));
    }
}

/// Taking `need` items of kind `id` lowers that kind's count by `need`, or to
/// zero when fewer are held, and leaves every other kind's count alone.
pub proof fn lemma_take_items_counts(s: Seq<(u32, u32)>, id: u32, need: int, k: u32)
    requires
        need >= 0,
    ensures
        k == id ==> count_of(take_items(s, id, need), k) == count_of(s, id) - (if need < count_of(s, id) { need } else { count_of(s, id) }),
        k != id ==> count_of(take_items(s, id, need), k) == count_of(s, k),
{
    lemma_take_items_prefix(s, id, need, k, s.len() as int);
    assert(take_items(s, id, need).take(s.len() as int) =~= take_items(s, id, need));
    assert(s.take(s.len() as int) =~= s);
}

/// Taking items keeps empty slots empty.
pub proof fn lemma_take_items_empty(s: Seq<(u32, u32)>, id: u32, need: int)
    requires
        empty_slots_hold_nothing(s),
        id != 0,
    ensures
        empty_slots_hold_nothing(take_items(s, id, need)),
{
    let r = take_items(s, id, need);
    assert forall|i: int| 0 <= i < r.len() && #[trigger] r[i].0 == 0 implies r[i].1 == 0 by {
        assert(r[i] == slot_after_take(s, id, need, i));
    }
}

/// Taking the uses of a recipe never raises any kind's count.
pub proof fn lemma_take_all_no_more(s: Seq<(u32, u32)>, uses: Seq<(u32, u32)>, k: u32)
    ensures
        count_of(take_all(s, uses), k) <= count_of(s, k),
    decreases uses.len(),
{
    if uses.len() > 0 {
        lemma_take_all_no_more(s, uses.drop_last(), k);
        let t = take_all(s, uses.drop_last());
        lemma_take_items_counts(t, uses.last().0, uses.last().1 as int, k);
        lemma_count_nonneg(t, k);
    }
}

/// Taking the uses of a recipe whose first use is available lowers the count
/// of that use's kind by at least the amount it asks for.
pub proof fn lemma_take_all_first(s: Seq<(u32, u32)>, uses: Seq<(u32, u32)>)
    requires
        uses.len() > 0,
        count_of(s, uses[0].0) >= uses[0].1,
    ensures
        count_of(take_all(s, uses), uses[0].0) <= count_of(s, uses[0].0) - uses[0].1,
    decreases uses.len(),
{
    let a = uses[0].0;
    if uses.len() == 1 {
        assert(uses.drop_last().len() == 0);
        lemma_take_items_counts(s, a, uses[0].1 as int, a);
    } else {
        assert(uses.drop_last()[0] == uses[0]);
        lemma_take_all_first(s, uses.drop_last());
        let t = take_all(s, uses.drop_last());
        lemma_take_items_counts(t, uses.last().0, uses.last().1 as int, a);
        lemma_count_nonneg(t, a);
    }
}

/// A recipe whose repeated crafting ends: it uses something, its first use asks
/// for at least one item, and that item is not what it makes.
pub open spec fn repeatable(uses: Seq<(u32, u32)>, made: (u32, u32)) -> bool {
    &&& uses.len() > 0
    &&& uses[0].1 >= 1
    &&& uses[0].0 != made.0
}

/// A crafting step never raises the count of the first use's kind, and a step
/// after which more may follow lowers it.
pub proof fn lemma_craft_once_progress(s: Seq<(u32, u32)>, uses: Seq<(u32, u32)>, made: (u32, u32))
    requires
        repeatable(uses, made),
    ensures
        count_of(craft_once(s, uses, made, true).0, uses[0].0) <= count_of(s, uses[0].0),
        craft_once(s, uses, made, true).1 ==> count_of(craft_once(s, uses, made, true).0, uses[0].0) < count_of(s, uses[0].0),
{
    let a = uses[0].0;
    if has_requirements(s, uses) {
        assert(count_of(s, uses[0].0) >= uses[0].1);
        lemma_take_all_first(s, uses);
        let t = take_all(s, uses);
        let k = result_slot(t, made);
        lemma_result_slot_from(t, made, 0);
        if k < t.len() {
            lemma_count_update(t, k, (made.0, (t[k].1 + made.1) as u32), a);
        }
    }
}

/// A recipe whose uses name distinct, non-empty kinds, none of them the (non-empty) kind it makes.
pub open spec fn distinct_recipe(uses: Seq<(u32, u32)>, made: (u32, u32)) -> bool {
    &&& made.0 != 0
    &&& forall|j: int| 0 <= j < uses.len() ==> (#[trigger] uses[j]).0 != 0 && uses[j].0 != made.0
    &&& forall|j1: int, j2: int|
        0 <= j1 < uses.len() && 0 <= j2 < uses.len() && j1 != j2 ==> (#[trigger] uses[j1]).0
            != (#[trigger] uses[j2]).0
}

/// How many items of kind `k` a recipe's uses ask for in all.
pub open spec fn use_amount(uses: Seq<(u32, u32)>, k: u32) -> int
    decreases uses.len(),
{
    if uses.len() == 0 {
        0
    } else {
        use_amount(uses.drop_last(), k) + if uses.last().0 == k {
            uses.last().1 as int
        } else {
            0
        }
    }
}

/// Uses of distinct kinds: a kind that none of them names is asked for zero times.
proof fn lemma_use_amount_absent(uses: Seq<(u32, u32)>, k: u32)
    requires
        forall|j: int| 0 <= j < uses.len() ==> (#[trigger] uses[j]).0 != k,
    ensures
        use_amount(uses, k) == 0,
    decreases uses.len(),
{
    if uses.len() > 0 {
        assert(uses[uses.len() - 1].0 != k);
        assert forall|j: int| 0 <= j < uses.drop_last().len() implies (#[trigger] uses.drop_last()[j]).0 != k by {
            assert(uses.drop_last()[j] == uses[j]);
        }
        lemma_use_amount_absent(uses.drop_last(), k);
    }
}

/// Taking the uses of a recipe of distinct kinds that the slots hold lowers each
/// kind's count by exactly what the uses ask for, and keeps empty slots empty.
proof fn lemma_take_all_exact(s: Seq<(u32, u32)>, uses: Seq<(u32, u32)>, made: (u32, u32), c: u32)
    requires
        distinct_recipe(uses, made),
        has_requirements(s, uses),
        empty_slots_hold_nothing(s),
    ensures
        count_of(take_all(s, uses), c) == count_of(s, c) - use_amount(uses, c),
        empty_slots_hold_nothing(take_all(s, uses)),
    decreases uses.len(),
{
    if uses.len() > 0 {
        let d = uses.drop_last();
        let b = uses.last();
        assert forall|j: int| 0 <= j < d.len() implies (#[trigger] d[j]).0 != 0 && d[j].0 != made.0 by {
            assert(d[j] == uses[j]);
        }
        assert forall|j1: int, j2: int|
            0 <= j1 < d.len() && 0 <= j2 < d.len() && j1 != j2 implies (#[trigger] d[j1]).0 != (
            #[trigger] d[j2]).0 by {
            assert(d[j1] == uses[j1] && d[j2] == uses[j2]);
        }
        assert forall|j: int| 0 <= j < d.len() implies count_of(s, (#[trigger] d[j]).0) >= d[j].1 by {
            assert(d[j] == uses[j]);
        }
        lemma_take_all_exact(s, d, made, c);
        lemma_take_all_exact(s, d, made, b.0);
        assert forall|j: int| 0 <= j < d.len() implies (#[trigger] d[j]).0 != b.0 by {
            assert(d[j] == uses[j]);
            assert(uses[uses.len() - 1] == b);
        }
        lemma_use_amount_absent(d, b.0);
        assert(uses[uses.len() - 1] == b);
        assert(count_of(s, b.0) >= b.1);
        let t = take_all(s, d);
        lemma_take_items_counts(t, b.0, b.1 as int, c);
        lemma_take_items_empty(t, b.0, b.1 as int);
    }
}

/// Crafting conserves items: when a step of a recipe of distinct kinds finds
/// its uses and a slot for what it makes, every kind the recipe uses loses
/// exactly the amount used, the made kind gains exactly the amount made, every
/// other kind keeps its count, and empty slots stay empty.
pub proof fn law_craft_conserves(s: Seq<(u32, u32)>, uses: Seq<(u32, u32)>, made: (u32, u32), more: bool, c: u32)
    requires
        distinct_recipe(uses, made),
        empty_slots_hold_nothing(s),
        has_requirements(s, uses),
        result_slot(take_all(s, uses), made) < s.len(),
    ensures
        count_of(craft_once(s, uses, made, more).0, c) == count_of(s, c) - use_amount(uses, c) + (if c
            == made.0 {
            made.1 as int
        } else {
            0
        }),
        empty_slots_hold_nothing(craft_once(s, uses, made, more).0),
        craft_once(s, uses, made, more).1 == more,
{
    lemma_take_all_exact(s, uses, made, c);
    let t = take_all(s, uses);
    let k = result_slot(t, made);
    assert(t.len() == s.len()) by {
        lemma_take_all_len(s, uses);
    }
    lemma_result_slot_from(t, made, 0);
    let v = (made.0, (t[k].1 + made.1) as u32);
    lemma_count_update(t, k, v, c);
    let r = t.update(k, v);
    assert forall|i: int| 0 <= i < r.len() && #[trigger] r[i].0 == 0 implies r[i].1 == 0 by {
        if i != k {
            assert(r[i] == t[i]);
        }
    }
}

/// Taking items keeps the number of slots.
pub proof fn lemma_take_all_len(s: Seq<(u32, u32)>, uses: Seq<(u32, u32)>)
    ensures
        take_all(s, uses).len() == s.len(),
    decreases uses.len(),
{
    if uses.len() > 0 {
        lemma_take_all_len(s, uses.drop_last());
    }
}

/// Overwrites one slot with a kind and a count.
pub fn set_in_inventory(inv: &mut Inventory, slot: usize, newid: u32, newcount: u32) -> (r: Result<bool, bool>)
    requires
        slot < 8,
    ensures
        r == Ok::<bool, bool>(true),
        final(inv).dirty,
        final(inv).inv@ == old(inv).inv@.update(slot as int, (newid, newcount)),
{
    inv.inv[slot] = (newid, newcount);
    inv.dirty = true;
    Ok(true)
}

/// The slot writes `(slot, kind, count)` that turn the first `n` slots of `s`
/// into those of `t`, one for each slot that differs, first slot first.
pub open spec fn changed_slots(s: Seq<(u32, u32)>, t: Seq<(u32, u32)>, n: int) -> Seq<(usize, u32, u32)>
    decreases n,
{
    if n <= 0 {
        seq![]
    } else {
        changed_slots(s, t, n - 1) + if t[n - 1] != s[n - 1] {
            seq![((n - 1) as usize, t[n - 1].0, t[n - 1].1)]
        } else {
            seq![]
        }
    }
}

/// The writes of a single craft: none without the uses or without a slot for
/// the made items; otherwise the slots the taking changed, then the slot that
/// takes the made items.
pub open spec fn single_craft_writes(s: Seq<(u32, u32)>, uses: Seq<(u32, u32)>, made: (u32, u32)) -> Seq<
    (usize, u32, u32),
> {
    if !has_requirements(s, uses) {
        seq![]
    } else {
        let t = take_all(s, uses);
        let k = result_slot(t, made);
        if k < t.len() {
            changed_slots(s, t, s.len() as int) + seq![(k as usize, made.0, (t[k].1 + made.1) as u32)]
        } else {
            seq![]
        }
    }
}

/// The slot writes, in order, that crafting `recipe` asks of the inventory: for a
/// single craft as `single_craft_writes` says; for crafting all, the slots that
/// differ once the crafting steps have run until one reports that no further
/// step can follow.
pub fn craft_recipe_writes(inv: &Inventory, recipe: &Recipe, all: bool) -> (w: Vec<(usize, u32, u32)>)
    requires
        all ==> repeatable(recipe.0@, recipe.1),
    ensures
        !all ==> w@ == single_craft_writes(inv.inv@, recipe.0@, recipe.1),
        all ==> exists|n: nat|
            {
                let st = #[trigger] craft_steps(inv.inv@, recipe.0@, recipe.1, n);
                &&& !st.1
                &&& w@ == changed_slots(inv.inv@, st.0, 8)
            },
{
    let ghost s = inv.inv@;
    let mut target = *inv;
    let mut more = true;
    if all {
        let ghost mut n: nat = 0;
        while more
            invariant
                repeatable(recipe.0@, recipe.1),
                craft_steps(s, recipe.0@, recipe.1, n) == (target.inv@, more),
            decreases count_of(target.inv@, recipe.0@[0].0), (if more { 1int } else { 0int }),
        {
            proof {
                lemma_craft_once_progress(target.inv@, recipe.0@, recipe.1);
            }
            craft_in_local_inv(recipe, &mut target, &mut more);
            proof {
                n = n + 1;
                lemma_count_nonneg(target.inv@, recipe.0@[0].0);
            }
        }
        let w = diff_slots(&inv.inv, &target.inv);
        assert(craft_steps(s, recipe.0@, recipe.1, n).1 == false);
        w
    } else {
        craft_in_local_inv(recipe, &mut target, &mut more);
        if !more {
            let w: Vec<(usize, u32, u32)> = Vec::new();
            proof {
                let uses = recipe.0@;
                lemma_result_slot_from(take_all(s, uses), recipe.1, 0);
                lemma_take_all_len(s, uses);
                assert(w@ =~= single_craft_writes(s, uses, recipe.1));
            }
            w
        } else {
            let ghost uses = recipe.0@;
            let ghost t = take_all(s, uses);
            let ghost k = result_slot(t, recipe.1);
            proof {
                lemma_result_slot_from(t, recipe.1, 0);
                lemma_take_all_len(s, uses);
            }
            let mut taken = *inv;
            let mut j: usize = 0;
            let r = &recipe.0;
            while j < r.len()
                invariant
                    0 <= j <= uses.len(),
                    uses == r@,
                    taken.inv@ == take_all(s, uses.take(j as int)),
                decreases uses.len() - j,
            {
                let req = r[j];
                take_from_slots(&mut taken.inv, req.0, req.1);
                assert(uses.take(j + 1).drop_last() =~= uses.take(j as int));
                j = j + 1;
            }
            assert(uses.take(uses.len() as int) =~= uses);
            let kk = find_result_slot(&taken.inv, recipe.1);
            let mut w = diff_slots(&inv.inv, &taken.inv);
            let c = taken.inv[kk].1;
            w.push((kk, recipe.1.0, c + recipe.1.1));
            w
        }
    }
}

/// The writes that turn `a` into `b`, first slot first.
fn diff_slots(a: &[(u32, u32); 8], b: &[(u32, u32); 8]) -> (w: Vec<(usize, u32, u32)>)
    ensures
        w@ == changed_slots(a@, b@, 8),
{
    let mut w: Vec<(usize, u32, u32)> = Vec::new();
    let mut i: usize = 0;
    while i < 8
        invariant
            0 <= i <= 8,
            a@.len() == 8,
            b@.len() == 8,
            w@ == changed_slots(a@, b@, i as int),
        decreases 8 - i,
    {
        if a[i].0 != b[i].0 || a[i].1 != b[i].1 {
            w.push((i, b[i].0, b[i].1));
        } else {
            assert(a@[i as int] == b@[i as int]);
        }
        i = i + 1;
    }
    w
}

/// The slots after the writes `(slot, kind, count)` are made in order.
pub open spec fn apply_writes(s: Seq<(u32, u32)>, w: Seq<(usize, u32, u32)>) -> Seq<(u32, u32)>
    decreases w.len(),
{
    if w.len() == 0 {
        s
    } else {
        apply_writes(s, w.drop_last()).update(w.last().0 as int, (w.last().1, w.last().2))
    }
}

/// Making the writes for the slots that differ in the first `n` slots copies
/// those slots of `t` and leaves the rest as they were.
pub proof fn lemma_apply_changed(s: Seq<(u32, u32)>, t: Seq<(u32, u32)>, n: int)
    requires
        t.len() == s.len(),
        0 <= n <= s.len(),
        s.len() <= 0xFFFF_FFFF,
    ensures
        apply_writes(s, changed_slots(s, t, n)) =~= Seq::new(
            s.len(),
            |i: int|
                if i < n {
                    t[i]
                } else {
                    s[i]
                },
        ),
    decreases n,
{
    if n > 0 {
        lemma_apply_changed(s, t, n - 1);
        let w = changed_slots(s, t, n);
        let prev = apply_writes(s, changed_slots(s, t, n - 1));
        if t[n - 1] != s[n - 1] {
            assert(w.drop_last() =~= changed_slots(s, t, n - 1));
            assert(w.last() == ((n - 1) as usize, t[n - 1].0, t[n - 1].1));
            assert(((n - 1) as usize) as int == n - 1);
            assert(apply_writes(s, w) == prev.update(n - 1, (t[n - 1].0, t[n - 1].1)));
        } else {
            assert(w =~= changed_slots(s, t, n - 1));
        }
    }
}

/// The writes of a craft do what crafting on the inventory itself does: a
/// single craft that finds its uses and a slot gives the slots of one crafting
/// step and otherwise changes nothing; crafting all gives the slots the steps
/// end with.
pub proof fn law_craft_writes_apply(s: Seq<(u32, u32)>, uses: Seq<(u32, u32)>, made: (u32, u32), n: nat)
    requires
        s.len() == 8,
    ensures
        craft_once(s, uses, made, true).1 ==> apply_writes(s, single_craft_writes(s, uses, made))
            == craft_once(s, uses, made, true).0,
        !craft_once(s, uses, made, true).1 ==> apply_writes(s, single_craft_writes(s, uses, made)) == s,
        apply_writes(s, changed_slots(s, craft_steps(s, uses, made, n).0, 8)) == craft_steps(
            s,
            uses,
            made,
            n,
        ).0,
{
    lemma_craft_steps_len(s, uses, made, n);
    lemma_apply_changed(s, craft_steps(s, uses, made, n).0, 8);
    if has_requirements(s, uses) {
        let t = take_all(s, uses);
        lemma_take_all_len(s, uses);
        lemma_result_slot_from(t, made, 0);
        let k = result_slot(t, made);
        if k < t.len() {
            lemma_apply_changed(s, t, 8);
            let w = single_craft_writes(s, uses, made);
            assert(w.drop_last() =~= changed_slots(s, t, 8));
        }
    }
}

/// Crafting steps keep the number of slots.
pub proof fn lemma_craft_steps_len(s: Seq<(u32, u32)>, uses: Seq<(u32, u32)>, made: (u32, u32), n: nat)
    ensures
        craft_steps(s, uses, made, n).0.len() == s.len(),
    decreases n,
{
    if n > 0 {
        lemma_craft_steps_len(s, uses, made, (n - 1) as nat);
        let p = craft_steps(s, uses, made, (n - 1) as nat);
        lemma_take_all_len(p.0, uses);
        if p.1 {
            let t = take_all(p.0, uses);
            lemma_result_slot_from(t, made, 0);
            assert(craft_once(p.0, uses, made, p.1).0.len() == p.0.len());
        }
    }
}

/// Whether the slots hold every use of a recipe.
fn holds_uses(inv: &[(u32, u32); 8], uses: &Vec<(u32, u32)>) -> (b: bool)
    ensures
        b == has_requirements(inv@, uses@),
{
    let mut hasreqs = true;
    let mut j: usize = 0;
    while j < uses.len()
        invariant
            0 <= j <= uses@.len(),
            hasreqs == (forall|m: int| 0 <= m < j ==> count_of(inv@, (#[trigger] uses@[m]).0) >= uses@[m].1),
        decreases uses@.len() - j,
    {
        let req = uses[j];
        let amt = total_of(inv, req.0);
        if amt < req.1 as u64 {
            hasreqs = false;
        }
        j = j + 1;
    }
    hasreqs
}

/// Whether the crafting menu offers a recipe: the slots hold all its uses, and
/// at the small table only recipes that need no crafting bench are offered.
pub open spec fn recipe_offered(s: Seq<(u32, u32)>, r: (Seq<(u32, u32)>, (u32, u32), bool), at_small_table: bool) -> bool {
    has_requirements(s, r.0) && !(at_small_table && !r.2)
}

/// The indices, in order, of the first `n` recipes that the menu offers.
pub open spec fn offered_upto(
    s: Seq<(u32, u32)>,
    rs: Seq<Recipe>,
    at_small_table: bool,
    n: int,
) -> Seq<usize>
    decreases n,
{
    if n <= 0 {
        seq![]
    } else {
        offered_upto(s, rs, at_small_table, n - 1) + if recipe_offered(s, recipe_view(rs[n - 1]), at_small_table) {
            seq![(n - 1) as usize]
        } else {
            seq![]
        }
    }
}

/// The recipes the crafting menu offers for this inventory, as indices into `recipes`.
pub fn update_avail_recipes(inv: &Inventory, recipes: &Vec<Recipe>, at_small_table: bool) -> (avail: Vec<usize>)
    ensures
        avail@ == offered_upto(inv.inv@, recipes@, at_small_table, recipes@.len() as int),
{
    let mut avail: Vec<usize> = Vec::new();
    let mut i: usize = 0;
    while i < recipes.len()
        invariant
            0 <= i <= recipes@.len(),
            avail@ == offered_upto(inv.inv@, recipes@, at_small_table, i as int),
        decreases recipes@.len() - i,
    {
        let rec = &recipes[i];
        let mut able = holds_uses(&inv.inv, &rec.0);
        if at_small_table && !rec.2 {
            able = false;
        }
        if able {
            avail.push(i);
        }
        i = i + 1;
    }
    avail
}

/// What a client asks the server for in place of adding items locally: the slot
/// that already holds the kind, with one more item than it holds, or else the
/// first empty slot with one item; `Err(false)` when there is neither.
pub fn add_to_inventory_request(inv: &Inventory, id: u32) -> (r: Result<(usize, u64), bool>)
    ensures
        ({
            let s = inv.inv@;
            let f = first_with(s, id);
            let e = first_with(s, 0);
            &&& f < 8 ==> r == Ok::<(usize, u64), bool>((f as usize, (s[f].1 + 1) as u64))
            &&& f >= 8 && e < 8 ==> r == Ok::<(usize, u64), bool>((e as usize, 1u64))
            &&& f >= 8 && e >= 8 ==> r == Err::<(usize, u64), bool>(false)
        }),
{
    let f = find_slot(&inv.inv, id);
    if f < 8 {
        Ok((f, inv.inv[f].1 as u64 + 1))
    } else {
        let e = find_slot(&inv.inv, 0);
        if e < 8 {
            Ok((e, 1))
        } else {
            Err(false)
        }
    }
}

/// What a slot holds after a click while the mouse carries `mouse`: the sum when
/// both hold the same kind, else the carried stack.
pub open spec fn clicked_slot(slot: (u32, u32), mouse: (u32, u32)) -> (u32, u32) {
    if slot.0 == mouse.0 {
        (slot.0, (slot.1 + mouse.1) as u32)
    } else {
        mouse
    }
}

/// The stack a client in a multiplayer game asks the server to put into the
/// clicked slot: what a click leaves there when played locally.
pub fn click_request(slot: (u32, u32), mouse: (u32, u32)) -> (r: (u32, u32))
    requires
        slot.0 == mouse.0 ==> slot.1 + mouse.1 <= u32::MAX,
    ensures
        r == clicked_slot(slot, mouse),
{
    if slot.0 == mouse.0 {
        (slot.0, slot.1 + mouse.1)
    } else {
        mouse
    }
}

/// A click on a slot while the mouse carries `mouse`: when the slot holds the
/// same kind it takes the carried items and the mouse is left empty; otherwise
/// slot and mouse trade contents. Returns whether they traded.
pub fn click_slot(slot: &mut (u32, u32), mouse: &mut (u32, u32)) -> (traded: bool)
    requires
        old(slot).0 == old(mouse).0 ==> old(slot).1 + old(mouse).1 <= u32::MAX,
    ensures
        old(slot).0 == old(mouse).0 ==> !traded && *final(slot) == (old(slot).0, (old(slot).1 + old(mouse).1) as u32)
            && *final(mouse) == (0u32, 0u32),
        old(slot).0 != old(mouse).0 ==> traded && *final(slot) == *old(mouse) && *final(mouse) == *old(slot),
        *final(slot) == clicked_slot(*old(slot), *old(mouse)),
{
    if slot.0 == mouse.0 {
        slot.1 = slot.1 + mouse.1;
        *mouse = (0, 0);
        false
    } else {
        let buff = *slot;
        slot.0 = mouse.0;
        slot.1 = mouse.1;
        mouse.0 = buff.0;
        mouse.1 = buff.1;
        true
    }
}

/// A click never makes or destroys items: for every kind, slot and mouse
/// together hold as many as before.
pub proof fn law_click_conserves(slot: (u32, u32), mouse: (u32, u32), slot2: (u32, u32), mouse2: (u32, u32), k: u32)
    requires
        slot.0 == mouse.0 ==> slot.1 + mouse.1 <= u32::MAX && slot2 == (slot.0, (slot.1 + mouse.1) as u32)
            && mouse2 == (0u32, 0u32),
        slot.0 != mouse.0 ==> slot2 == mouse && mouse2 == slot,
    ensures
        slot_count(slot2, k) + slot_count(mouse2, k) == slot_count(slot, k) + slot_count(mouse, k),
{
}

/// The index that scrolling by `change` (-1, 0 or 1) moves to among `len`
/// entries: one back from the first wraps to the last, one on from the last
/// wraps to the first.
pub open spec fn scrolled(current: int, change: int, len: int) -> int {
    let p = current + change;
    (if p < 0 { len - 1 } else { p }) % len
}

/// Moves the selected hot-bar slot (or the selected build) by one step of the
/// scroll wheel, wrapping at both ends.
pub fn scroll_index(current: usize, change: i8, len: usize) -> (r: usize)
    requires
        -1 <= change <= 1,
        0 < len <= 127,
        current < 128,
        current + change <= 127,
    ensures
        r == scrolled(current as int, change as int, len as int),
        r < len,
{
    let mut proposed: i8 = current as i8 + change;
    if proposed < 0 {
        proposed = len as i8 - 1;
    }
    assert(0 <= proposed);
    let p: usize = proposed as usize;
    p % len
}

/// The player's health after taking `amount` damage: never below zero, and
/// reset to full (20) when it reaches zero, in which case the inventory is
/// replaced by the starting items. Returns the new health and whether the player died.
pub fn take_damage(health: i8, inv: &mut Inventory, amount: u8) -> (r: (i8, bool))
    requires
        i8::MIN <= health - (amount as i8) <= i8::MAX,
    ensures
        ({
            let left = health - (amount as i8);
            &&& r.1 == (left <= 0)
            &&& r.1 ==> r.0 == 20 && final(inv).inv@ == STARTINGITEMS@ && final(inv).dirty == old(inv).dirty
            &&& !r.1 ==> r.0 == left && *final(inv) == *old(inv)
        }),
{
    let h = health;
    let mut newamount = h - amount as i8;
    if newamount < 0 {
        newamount = 0;
    }
    if newamount <= 0 {
        inv.inv = STARTINGITEMS;
        (20, true)
    } else {
        (newamount, false)
    }
}

/// Which movement and look keys are held.
pub struct ControlsState {
    pub left: bool,
    pub right: bool,
    pub forward: bool,
    pub back: bool,
    pub up: bool,
    pub lookingleft: bool,
    pub lookingright: bool,
    pub shift: bool,
}

impl ControlsState {
    /// No key held.
    pub fn new() -> (c: ControlsState)
        ensures
            !c.left && !c.right && !c.forward && !c.back && !c.up && !c.lookingleft && !c.lookingright
                && !c.shift,
    {
        ControlsState {
            left: false,
            right: false,
            forward: false,
            back: false,
            up: false,
            lookingleft: false,
            lookingright: false,
            shift: false,
        }
    }

    /// Releases every movement and look key; the shift key keeps its state.
    pub fn clear(&mut self)
        ensures
            !final(self).left && !final(self).right && !final(self).forward && !final(self).back
                && !final(self).up && !final(self).lookingleft && !final(self).lookingright,
            final(self).shift == old(self).shift,
    {
        self.left = false;
        self.right = false;
        self.forward = false;
        self.back = false;
        self.up = false;
        self.lookingleft = false;
        self.lookingright = false;
    }
}

/// A movement key that counts while it is held down.
#[derive(PartialEq, Eq, Structural, Clone, Copy, Debug)]
pub enum HeldKey {
    Forward,
    Left,
    Backward,
    Right,
    Up,
    Sprint,
}

impl ControlsState {
    /// Records whether the movement key `key` is held (pressed or repeating); the
    /// other keys keep their state.
    pub fn set_held(&mut self, key: HeldKey, held: bool)
        ensures
            final(self).forward == (if key == HeldKey::Forward { held } else { old(self).forward }),
            final(self).left == (if key == HeldKey::Left { held } else { old(self).left }),
            final(self).back == (if key == HeldKey::Backward { held } else { old(self).back }),
            final(self).right == (if key == HeldKey::Right { held } else { old(self).right }),
            final(self).up == (if key == HeldKey::Up { held } else { old(self).up }),
            final(self).shift == (if key == HeldKey::Sprint { held } else { old(self).shift }),
            final(self).lookingleft == old(self).lookingleft,
            final(self).lookingright == old(self).lookingright,
    {
        match key {
            HeldKey::Forward => self.forward = held,
            HeldKey::Left => self.left = held,
            HeldKey::Backward => self.back = held,
            HeldKey::Right => self.right = held,
            HeldKey::Up => self.up = held,
            HeldKey::Sprint => self.shift = held,
        }
    }
}

/// Which of the game's overlays are open: the escape menu, a chest, the crafting view.
#[derive(PartialEq, Eq, Structural, Clone, Copy, Debug)]
pub struct Overlays {
    pub menu_open: bool,
    pub chest_open: bool,
    pub crafting_open: bool,
}

/// Whether any overlay is open.
pub open spec fn any_open(o: Overlays) -> bool {
    o.menu_open || o.chest_open || o.crafting_open
}

/// The escape key opens the menu when nothing is open and closes everything otherwise.
pub open spec fn after_escape(o: Overlays) -> Overlays {
    if !any_open(o) {
        Overlays { menu_open: true, ..o }
    } else {
        Overlays { menu_open: false, chest_open: false, crafting_open: false }
    }
}

/// Handles a press of the escape key: the overlays afterwards, and whether the
/// mouse is captured again for playing (it is when something was closed).
pub fn press_escape(o: Overlays) -> (r: (Overlays, bool))
    ensures
        r.0 == after_escape(o),
        r.1 == any_open(o),
{
    if !o.menu_open && !o.chest_open && !o.crafting_open {
        (Overlays { menu_open: true, chest_open: o.chest_open, crafting_open: o.crafting_open }, false)
    } else {
        (Overlays { menu_open: false, chest_open: false, crafting_open: false }, true)
    }
}

/// Two presses of escape while playing open the menu and close it again; from
/// any state, one press at most leaves nothing open or opens only the menu.
pub proof fn law_escape_twice_returns(o: Overlays)
    ensures
        !any_open(o) ==> after_escape(after_escape(o)) == o,
        any_open(o) ==> !any_open(after_escape(o)),
{
}

/// What a mob is drawn as: a model or a voxel model, by index.
#[derive(PartialEq, Eq, Structural, Clone, Copy, Debug)]
pub enum VisionType {
    Model(usize),
    Vox(usize),
}

/// Placing or eating takes one item from a slot; taking the last one empties it.
pub fn use_one(slot: &mut (u32, u32))
    requires
        old(slot).1 >= 1,
    ensures
        old(slot).1 == 1 ==> *final(slot) == (0u32, 0u32),
        old(slot).1 > 1 ==> *final(slot) == (old(slot).0, (old(slot).1 - 1) as u32),
{
    if slot.1 == 1 {
        slot.1 = 0;
        slot.0 = 0;
    } else {
        slot.1 = slot.1 - 1;
    }
}

/// The health after eating: raised by the food's gain, but never above 20.
pub fn eat_health(health: i8, gain: i32) -> (h: i8)
    requires
        i8::MIN <= health + (gain as i8) <= i8::MAX,
    ensures
        h == (if health + (gain as i8) < 20 { health + (gain as i8) } else { 20 }),
{
    let raised = health + gain as i8;
    if raised < 20 {
        raised
    } else {
        20
    }
}


/// What stepping on a block does.
#[derive(PartialEq, Eq, Structural, Clone, Copy, Debug)]
pub enum JumpEffect {
    /// Nothing.
    Nothing,
    /// A switch block flips: the block becomes the one given.
    SwitchTo(u32),
    /// A trampoline throws the player up.
    Bounce,
}

/// The effect of stepping on a block of value `bits`: switch 40 turns into 41 and
/// back, 42 is a trampoline, anything else does nothing. Flag bits are ignored.
pub open spec fn jump_effect_of(bits: u32) -> JumpEffect {
    let id = bits & 0xFFFF;
    if id == 40 {
        JumpEffect::SwitchTo(41)
    } else if id == 41 {
        JumpEffect::SwitchTo(40)
    } else if id == 42 {
        JumpEffect::Bounce
    } else {
        JumpEffect::Nothing
    }
}

/// Tells what stepping on the block of value `bits` does.
pub fn jump_block_effect(bits: u32) -> (e: JumpEffect)
    ensures
        e == jump_effect_of(bits),
{
    let id = bits & 0xFFFF;
    if id == 40 {
        JumpEffect::SwitchTo(41)
    } else if id == 41 {
        JumpEffect::SwitchTo(40)
    } else if id == 42 {
        JumpEffect::Bounce
    } else {
        JumpEffect::Nothing
    }
}

/// Stepping on a switch twice puts it back: the block a switch turns into is a
/// switch that turns back into the first.
pub proof fn law_switch_flips_back(bits: u32, next: u32)
    requires
        jump_effect_of(bits) == JumpEffect::SwitchTo(next),
    ensures
        jump_effect_of(next) == JumpEffect::SwitchTo(bits & 0xFFFF),
{
    assert(41u32 & 0xFFFF == 41) by (bit_vector);
    assert(40u32 & 0xFFFF == 40) by (bit_vector);
}

} // verus!
