//! Scene sync: when the grid has changed and the tile assets are all
//! loaded, derives one placement per occupied cell — its tile kind, the
//! orientation from the classifier, and the asset to draw — for the
//! renderer to instantiate wholesale.

use vstd::prelude::*;

use crate::autotile::neighbors;
use crate::autotile::neighbors_spec;
use crate::classify::Rotation;
use crate::classify::classify;
use crate::classify::classify_spec;
use crate::picking::cell_occ;
use crate::tile_kind::TileKind;
use crate::tileset::TileAsset;
use crate::tileset::Tileset;
use crate::world::Coord;
use crate::world::Voxel;
use crate::world::World;
use crate::world::WorldChanged;

verus! {

/// One tile instance for the renderer: which cell, which shape, how it is
/// rotated, and what to draw it with. The world-space center of the cell
/// is the renderer's affair: cell `(x, y, z)` spans the unit cube from
/// `(x - 4, y - 4, z - 4)`.
#[derive(Clone, Copy, Debug, PartialEq, Eq, Structural)]
pub struct TilePlacement {
    pub coord: Coord,
    pub kind: TileKind,
    pub rotation: Rotation,
    pub asset: TileAsset,
}

/// What scene sync emits for the cell with scan position `i`: nothing for
/// an empty cell or a shape whose asset is missing, else one placement
/// carrying the classifier's result.
pub open spec fn cell_placement(w: World, ts: Tileset, i: int) -> Seq<TilePlacement> {
    let x = i % 8;
    let z = (i / 8) % 8;
    let y = i / 64;
    if cell_occ(w, x, y, z) {
        let c = Coord { x: x as i32, y: y as i32, z: z as i32 };
        let pair = classify_spec(neighbors_spec(w, c));
        match ts.asset_for(pair.0) {
            None => Seq::empty(),
            Some(asset) => seq![
                TilePlacement { coord: c, kind: pair.0, rotation: pair.1, asset },
            ],
        }
    } else {
        Seq::empty()
    }
}

/// The placements for the first `k` cells in scan order.
pub open spec fn placements_prefix(w: World, ts: Tileset, k: int) -> Seq<TilePlacement>
    decreases k,
{
    if k <= 0 {
        Seq::empty()
    } else {
        placements_prefix(w, ts, k - 1) + cell_placement(w, ts, k - 1)
    }
}

/// The full placement list scene sync emits: every occupied cell with an
/// available asset, in scan order, classified against the current grid.
pub open spec fn placements_spec(w: World, ts: Tileset) -> Seq<TilePlacement> {
    placements_prefix(w, ts, 512)
}

/// Derives the placement list for the whole grid.
pub fn tile_placements(world: &World, tileset: &Tileset) -> (v: Vec<TilePlacement>)
    requires
        world.wf(),
        tileset.wf(),
    ensures
        v@ == placements_spec(*world, *tileset),
{
    let mut v: Vec<TilePlacement> = Vec::new();
    let mut y: i32 = 0;
    while y < 8
        invariant
            world.wf(),
            tileset.wf(),
            0 <= y <= 8,
            v@ == placements_prefix(*world, *tileset, y as int * 64),
        decreases 8 - y,
    {
        let mut z: i32 = 0;
        while z < 8
            invariant
                world.wf(),
                tileset.wf(),
                0 <= y < 8,
                0 <= z <= 8,
                v@ == placements_prefix(*world, *tileset, y as int * 64 + z as int * 8),
            decreases 8 - z,
        {
            let mut x: i32 = 0;
            while x < 8
                invariant
                    world.wf(),
                    tileset.wf(),
                    0 <= y < 8,
                    0 <= z < 8,
                    0 <= x <= 8,
                    v@ == placements_prefix(
                        *world,
                        *tileset,
                        y as int * 64 + z as int * 8 + x as int,
                    ),
                decreases 8 - x,
            {
                let ghost i = y as int * 64 + z as int * 8 + x as int;
                proof {
                    assert(i % 8 == x as int && (i / 8) % 8 == z as int && i / 64 == y as int)
                        by (nonlinear_arith)
                        requires
                            i == y as int * 64 + z as int * 8 + x as int,
                            0 <= x < 8,
                            0 <= y < 8,
                            0 <= z < 8,
                    ;
                }
                let c = Coord::new(x, y, z);
                if world.get(&c) != Voxel::Air {
                    let nei = neighbors(world, c);
                    let (kind, rot) = classify(nei);
                    match tileset.get(kind) {
                        Some(asset) => {
                            let p = TilePlacement { coord: c, kind, rotation: rot, asset };
                            proof {
                                assert(v@.push(p) =~= placements_prefix(*world, *tileset, i + 1));
                            }
                            v.push(p);
                        },
                        None => {
                            proof {
                                assert(v@ =~= placements_prefix(*world, *tileset, i + 1));
                            }
                        },
                    }
                } else {
                    proof {
                        assert(v@ =~= placements_prefix(*world, *tileset, i + 1));
                    }
                }
                x = x + 1;
            }
            z = z + 1;
        }
        y = y + 1;
    }
    v
}

/// One reaction pass. Nothing happens without a raised changed signal;
/// with one raised but assets not yet ready, the signal is left standing
/// for a later pass; once ready, the signal is consumed and the full
/// placement list is rebuilt for the renderer to swap in.
pub fn remesh_on_world_changed(
    world: &World,
    tileset: &Tileset,
    changed: &mut WorldChanged,
) -> (res: Option<Vec<TilePlacement>>)
    requires
        world.wf(),
        tileset.wf(),
    ensures
        !old(changed).is_raised_spec() ==> res is None && !final(changed).is_raised_spec(),
        old(changed).is_raised_spec() && !tileset.ready ==> res is None
            && final(changed).is_raised_spec(),
        old(changed).is_raised_spec() && tileset.ready ==> {
            &&& !final(changed).is_raised_spec()
            &&& res matches Some(v) && v@ == placements_spec(*world, *tileset)
        },
{
    if !changed.is_raised() {
        return None;
    }
    if !tileset.ready {
        return None;
    }
    changed.clear();
    Some(tile_placements(world, tileset))
}

} // verus!
