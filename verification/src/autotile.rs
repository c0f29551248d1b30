//! Neighborhood sampling: for a cell, which of its six axis-aligned
//! neighbors are occupied. Out-of-bounds neighbors read as empty.

use vstd::prelude::*;

use crate::world::Coord;
use crate::world::Voxel;
use crate::world::World;

verus! {

/// Occupancy of the six axis-aligned neighbors of a cell.
#[derive(Clone, Copy, Debug, PartialEq, Eq, Structural)]
pub struct Neighbors {
    pub nx: bool,
    pub px: bool,
    pub ny: bool,
    pub py: bool,
    pub nz: bool,
    pub pz: bool,
}

/// The neighborhood a grid state gives a cell.
pub open spec fn neighbors_spec(world: World, c: Coord) -> Neighbors {
    Neighbors {
        nx: world.vox_at(c.x as int - 1, c.y as int, c.z as int) != Voxel::Air,
        px: world.vox_at(c.x as int + 1, c.y as int, c.z as int) != Voxel::Air,
        ny: world.vox_at(c.x as int, c.y as int - 1, c.z as int) != Voxel::Air,
        py: world.vox_at(c.x as int, c.y as int + 1, c.z as int) != Voxel::Air,
        nz: world.vox_at(c.x as int, c.y as int, c.z as int - 1) != Voxel::Air,
        pz: world.vox_at(c.x as int, c.y as int, c.z as int + 1) != Voxel::Air,
    }
}

/// Samples the grid at unit offsets along each axis. A neighbor whose
/// coordinate does not fit the coordinate type is out of bounds, hence empty.
pub fn neighbors(world: &World, c: Coord) -> (n: Neighbors)
    requires
        world.wf(),
    ensures
        n == neighbors_spec(*world, c),
{
    let nx = if c.x > i32::MIN {
        world.get(&Coord::new(c.x - 1, c.y, c.z)) != Voxel::Air
    } else {
        false
    };
    let px = if c.x < i32::MAX {
        world.get(&Coord::new(c.x + 1, c.y, c.z)) != Voxel::Air
    } else {
        false
    };
    let ny = if c.y > i32::MIN {
        world.get(&Coord::new(c.x, c.y - 1, c.z)) != Voxel::Air
    } else {
        false
    };
    let py = if c.y < i32::MAX {
        world.get(&Coord::new(c.x, c.y + 1, c.z)) != Voxel::Air
    } else {
        false
    };
    let nz = if c.z > i32::MIN {
        world.get(&Coord::new(c.x, c.y, c.z - 1)) != Voxel::Air
    } else {
        false
    };
    let pz = if c.z < i32::MAX {
        world.get(&Coord::new(c.x, c.y, c.z + 1)) != Voxel::Air
    } else {
        false
    };
    Neighbors { nx, px, ny, py, nz, pz }
}

} // verus!
