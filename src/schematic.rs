use vstd::prelude::*;
use crate::block::{MapBlock, Pos3};

verus! {

/// An immutable block template: blocks at offsets from an anchor, with the
/// bounding box of the offsets.
pub struct Schematic {
    pub items: Vec<(Pos3, MapBlock)>,
    pub aabb_min: Pos3,
    pub aabb_max: Pos3,
}

/// Whether `(lo, hi)` is the smallest box that holds every offset of `items`.
pub open spec fn is_bounding_box(items: Seq<(Pos3, MapBlock)>, lo: Pos3, hi: Pos3) -> bool {
    &&& forall|i: int|
        0 <= i < items.len() ==> lo.x <= (#[trigger] items[i]).0.x <= hi.x && lo.y <= items[i].0.y
            <= hi.y && lo.z <= items[i].0.z <= hi.z
    &&& exists|i: int| 0 <= i < items.len() && (#[trigger] items[i]).0.x == lo.x
    &&& exists|i: int| 0 <= i < items.len() && (#[trigger] items[i]).0.y == lo.y
    &&& exists|i: int| 0 <= i < items.len() && (#[trigger] items[i]).0.z == lo.z
    &&& exists|i: int| 0 <= i < items.len() && (#[trigger] items[i]).0.x == hi.x
    &&& exists|i: int| 0 <= i < items.len() && (#[trigger] items[i]).0.y == hi.y
    &&& exists|i: int| 0 <= i < items.len() && (#[trigger] items[i]).0.z == hi.z
}

/// The bounding box of the offsets of a non-empty item list.
pub fn aabb_min_max(items: &Vec<(Pos3, MapBlock)>) -> (r: (Pos3, Pos3))
    requires
        items@.len() > 0,
    ensures
        is_bounding_box(items@, r.0, r.1),
{
    let mut lo = items[0].0;
    let mut hi = items[0].0;
    let mut i: usize = 1;
    let ghost mut wx: int = 0;
    let ghost mut wy: int = 0;
    let ghost mut wz: int = 0;
    let ghost mut vx: int = 0;
    let ghost mut vy: int = 0;
    let ghost mut vz: int = 0;
    while i < items.len()
        invariant
            1 <= i <= items@.len(),
            forall|j: int|
                0 <= j < i ==> lo.x <= (#[trigger] items@[j]).0.x <= hi.x && lo.y <= items@[j].0.y
                    <= hi.y && lo.z <= items@[j].0.z <= hi.z,
            0 <= wx < i && items@[wx].0.x == lo.x,
            0 <= wy < i && items@[wy].0.y == lo.y,
            0 <= wz < i && items@[wz].0.z == lo.z,
            0 <= vx < i && items@[vx].0.x == hi.x,
            0 <= vy < i && items@[vy].0.y == hi.y,
            0 <= vz < i && items@[vz].0.z == hi.z,
        decreases items@.len() - i,
    {
        let p = items[i].0;
        if p.x < lo.x {
            lo.x = p.x;
            proof { wx = i as int; }
        }
        if p.y < lo.y {
            lo.y = p.y;
            proof { wy = i as int; }
        }
        if p.z < lo.z {
            lo.z = p.z;
            proof { wz = i as int; }
        }
        if p.x > hi.x {
            hi.x = p.x;
            proof { vx = i as int; }
        }
        if p.y > hi.y {
            hi.y = p.y;
            proof { vy = i as int; }
        }
        if p.z > hi.z {
            hi.z = p.z;
            proof { vz = i as int; }
        }
        i = i + 1;
    }
    (lo, hi)
}

/// The tree: a three-layer 3×3 leaf canopy at heights 3 to 5, listed by `x`,
/// then `y`, then height, followed by a four-block trunk rising from the anchor.
pub open spec fn tree_items() -> Seq<(Pos3, MapBlock)> {
    Seq::new(
        27,
        |i: int|
            (
                Pos3 { x: (i / 9 - 1) as isize, y: ((i / 3) % 3 - 1) as isize, z: (3 + i % 3) as isize },
                MapBlock::Leaves,
            ),
    ).add(Seq::new(4, |i: int| (Pos3 { x: 0, y: 0, z: i as isize }, MapBlock::Tree)))
}

/// Every offset of the tree lies within one block sideways and five up.
pub proof fn lemma_tree_offsets_small(i: int)
    requires
        0 <= i < tree_items().len(),
    ensures
        -1 <= tree_items()[i].0.x <= 1,
        -1 <= tree_items()[i].0.y <= 1,
        0 <= tree_items()[i].0.z <= 5,
{
}

/// Builds the tree schematic.
pub fn tree_schematic() -> (r: Schematic)
    ensures
        r.items@ == tree_items(),
        is_bounding_box(r.items@, r.aabb_min, r.aabb_max),
{
    let mut items: Vec<(Pos3, MapBlock)> = Vec::new();
    let mut x: isize = -1;
    while x <= 1
        invariant
            -1 <= x <= 2,
            items@ == tree_items().take((x + 1) * 9),
        decreases 2 - x,
    {
        let mut y: isize = -1;
        while y <= 1
            invariant
                -1 <= x <= 1,
                -1 <= y <= 2,
                items@ == tree_items().take((x + 1) * 9 + (y + 1) * 3),
            decreases 2 - y,
        {
            let ghost n = (x + 1) * 9 + (y + 1) * 3;
            proof {
                assert(n / 9 == x + 1 && (n / 3) % 3 == y + 1 && n % 3 == 0) by (nonlinear_arith)
                    requires
                        n == (x + 1) * 9 + (y + 1) * 3,
                        -1 <= x <= 1,
                        -1 <= y <= 1,
                ;
                assert((n + 1) / 9 == x + 1 && ((n + 1) / 3) % 3 == y + 1 && (n + 1) % 3 == 1)
                    by (nonlinear_arith)
                    requires
                        n == (x + 1) * 9 + (y + 1) * 3,
                        -1 <= x <= 1,
                        -1 <= y <= 1,
                ;
                assert((n + 2) / 9 == x + 1 && ((n + 2) / 3) % 3 == y + 1 && (n + 2) % 3 == 2)
                    by (nonlinear_arith)
                    requires
                        n == (x + 1) * 9 + (y + 1) * 3,
                        -1 <= x <= 1,
                        -1 <= y <= 1,
                ;
            }
            items.push((Pos3 { x, y, z: 3 }, MapBlock::Leaves));
            items.push((Pos3 { x, y, z: 4 }, MapBlock::Leaves));
            items.push((Pos3 { x, y, z: 5 }, MapBlock::Leaves));
            y = y + 1;
            assert(items@ =~= tree_items().take((x + 1) * 9 + (y + 1) * 3));
        }
        x = x + 1;
    }
    let mut z: isize = 0;
    while z < 4
        invariant
            0 <= z <= 4,
            items@ == tree_items().take(27 + z),
        decreases 4 - z,
    {
        items.push((Pos3 { x: 0, y: 0, z }, MapBlock::Tree));
        z = z + 1;
        assert(items@ =~= tree_items().take(27 + z));
    }
    assert(items@ =~= tree_items());
    let (aabb_min, aabb_max) = aabb_min_max(&items);
    Schematic { items, aabb_min, aabb_max }
}

} // verus!
