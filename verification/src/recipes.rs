use vstd::prelude::*;

verus! {

/// A crafting recipe: the items it uses (kind and amount), the item it makes
/// (kind and amount), and whether it can be made without a crafting bench.
pub type Recipe = (Vec<(u32, u32)>, (u32, u32), bool);

/// The recipe table: what each recipe uses, what it makes, and whether it can be
/// made away from a crafting bench.
pub open spec fn recipe_table() -> Seq<(Seq<(u32, u32)>, (u32, u32), bool)> {
    seq![
        (seq![(6u32, 1u32)], (10u32, 4u32), true),
        (seq![(10u32, 4u32)], (19u32, 2u32), false),
        (seq![(10u32, 2u32)], (20u32, 10u32), false),
        (seq![(10u32, 8u32)], (21u32, 1u32), false),
        (seq![(11u32, 1u32)], (18u32, 1u32), true),
        (seq![(22u32, 1u32)], (30u32, 1u32), true),
        (seq![(10u32, 10u32)], (31u32, 1u32), true),
        (seq![(1u32, 1u32)], (8u32, 1u32), false),
        (seq![(18u32, 1u32), (23u32, 1u32)], (24u32, 1u32), true),
        (seq![(1u32, 1u32)], (14u32, 8u32), true),
        (seq![(5u32, 1u32)], (9u32, 1u32), false),
        (seq![(22u32, 1u32)], (33u32, 4u32), true),
    ]
}

/// A recipe as a plain value: its uses as a sequence, its result and its flag.
pub open spec fn recipe_view(r: Recipe) -> (Seq<(u32, u32)>, (u32, u32), bool) {
    (r.0@, r.1, r.2)
}

/// The recipe table, in the order the crafting menu lists it.
pub fn recipes() -> (rs: Vec<Recipe>)
    ensures
        rs@.len() == recipe_table().len(),
        forall|i: int| 0 <= i < rs@.len() ==> recipe_view(#[trigger] rs@[i]) == recipe_table()[i],
{
    let rs: Vec<Recipe> = vec![
        (vec![(6, 1)], (10, 4), true),
        (vec![(10, 4)], (19, 2), false),
        (vec![(10, 2)], (20, 10), false),
        (vec![(10, 8)], (21, 1), false),
        (vec![(11, 1)], (18, 1), true),
        (vec![(22, 1)], (30, 1), true),
        (vec![(10, 10)], (31, 1), true),
        (vec![(1, 1)], (8, 1), false),
        (vec![(18, 1), (23, 1)], (24, 1), true),
        (vec![(1, 1)], (14, 8), true),
        (vec![(5, 1)], (9, 1), false),
        (vec![(22, 1)], (33, 4), true),
    ];
    assert(rs@.len() == 12);
    assert forall|i: int| 0 <= i < rs@.len() implies recipe_view(#[trigger] rs@[i]) == recipe_table()[i] by {
        assert(rs@[i].0@ =~= recipe_table()[i].0);
    }
    rs
}

} // verus!
