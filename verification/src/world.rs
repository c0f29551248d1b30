//! The voxel grid: a fixed cube of cells, each empty or occupied, with
//! bounds-checked reads and writes, and the one-slot "world changed" signal.

use vstd::prelude::*;

verus! {

/// Edge length of the cubic grid, in cells.
pub const WORLD_SIZE: i32 = 8;

/// A grid cell position. Any integer triple is a valid value; only those
/// with every component in `[0, WORLD_SIZE)` address a stored cell.
#[derive(Clone, Copy, Debug, PartialEq, Eq, Structural)]
pub struct Coord {
    pub x: i32,
    pub y: i32,
    pub z: i32,
}

impl Coord {
    pub fn new(x: i32, y: i32, z: i32) -> (c: Coord)
        ensures
            c == (Coord { x, y, z }),
    {
        Coord { x, y, z }
    }

    /// Whether this coordinate addresses a stored cell.
    pub open spec fn in_bounds_spec(self) -> bool {
        &&& 0 <= self.x < WORLD_SIZE as int
        &&& 0 <= self.y < WORLD_SIZE as int
        &&& 0 <= self.z < WORLD_SIZE as int
    }

    /// Row-major position of an in-bounds coordinate in the flat storage.
    pub open spec fn idx_spec(self) -> int {
        self.y * (WORLD_SIZE as int) * (WORLD_SIZE as int) + self.z * (WORLD_SIZE as int)
            + self.x
    }
}

/// Occupancy of one cell.
#[derive(Clone, Copy, Debug, PartialEq, Eq, Structural)]
pub enum Voxel {
    Air,
    Brick,
}

/// The voxel grid: a dense row-major array of `WORLD_SIZE^3` cells.
pub struct World {
    pub contents: Vec<Voxel>,
}

impl World {
    /// Structural invariant: the storage always holds exactly one voxel
    /// per in-bounds coordinate.
    pub open spec fn wf(self) -> bool {
        self.contents@.len() == (WORLD_SIZE as int) * (WORLD_SIZE as int) * (WORLD_SIZE as int)
    }

    /// The voxel at any integer coordinate: out-of-bounds reads as `Air`.
    pub open spec fn vox_at(self, x: int, y: int, z: int) -> Voxel {
        if 0 <= x < WORLD_SIZE as int && 0 <= y < WORLD_SIZE as int && 0 <= z
            < WORLD_SIZE as int {
            self.contents@[y * (WORLD_SIZE as int) * (WORLD_SIZE as int) + z * (
            WORLD_SIZE as int) + x]
        } else {
            Voxel::Air
        }
    }

    /// The voxel a coordinate value addresses.
    pub open spec fn vox_spec(self, coord: Coord) -> Voxel {
        self.vox_at(coord.x as int, coord.y as int, coord.z as int)
    }

    /// A grid with every cell empty.
    pub fn new() -> (w: World)
        ensures
            w.wf(),
            forall|x: int, y: int, z: int| #[trigger] w.vox_at(x, y, z) == Voxel::Air,
    {
        let total: usize = (WORLD_SIZE * WORLD_SIZE * WORLD_SIZE) as usize;
        let mut contents: Vec<Voxel> = Vec::new();
        let mut i: usize = 0;
        while i < total
            invariant
                i <= total,
                total == 512,
                contents@.len() == i as int,
                forall|k: int| 0 <= k < i as int ==> contents@[k] == Voxel::Air,
            decreases total - i,
        {
            contents.push(Voxel::Air);
            i = i + 1;
        }
        World { contents }
    }

    /// Writes a cell; out-of-bounds writes change nothing.
    pub fn set(&mut self, coord: &Coord, voxel: Voxel)
        requires
            old(self).wf(),
        ensures
            final(self).wf(),
            coord.in_bounds_spec() ==> final(self).contents@ == old(self).contents@.update(
                coord.idx_spec(),
                voxel,
            ),
            !coord.in_bounds_spec() ==> final(self).contents@ == old(self).contents@,
            forall|x: int, y: int, z: int|
                #[trigger] final(self).vox_at(x, y, z) == if coord.in_bounds_spec() && x
                    == coord.x as int && y == coord.y as int && z == coord.z as int {
                    voxel
                } else {
                    old(self).vox_at(x, y, z)
                },
    {
        if Self::in_bounds(coord) {
            let i = Self::idx(coord);
            self.contents[i] = voxel;
        }
    }

    /// Reads a cell; out-of-bounds reads return `Air`.
    pub fn get(&self, coord: &Coord) -> (v: Voxel)
        requires
            self.wf(),
        ensures
            v == self.vox_spec(*coord),
    {
        if Self::in_bounds(coord) {
            let i = Self::idx(coord);
            self.contents[i]
        } else {
            Voxel::Air
        }
    }

    fn idx(coord: &Coord) -> (i: usize)
        requires
            coord.in_bounds_spec(),
        ensures
            i as int == coord.idx_spec(),
            i < 512,
    {
        (coord.y * WORLD_SIZE * WORLD_SIZE + coord.z * WORLD_SIZE + coord.x) as usize
    }

    pub fn in_bounds(coord: &Coord) -> (r: bool)
        ensures
            r == coord.in_bounds_spec(),
    {
        coord.x >= 0 && coord.x < WORLD_SIZE && coord.y >= 0 && coord.y < WORLD_SIZE && coord.z
            >= 0 && coord.z < WORLD_SIZE
    }
}

/// The one-slot "grid occupancy changed" signal: raised on every mutation,
/// consumed once per reaction pass. Repeated raises coalesce; an unconsumed
/// signal persists to the next pass.
pub struct WorldChanged {
    pub raised: bool,
}

impl WorldChanged {
    pub open spec fn is_raised_spec(self) -> bool {
        self.raised
    }

    pub fn new() -> (s: WorldChanged)
        ensures
            !s.is_raised_spec(),
    {
        WorldChanged { raised: false }
    }

    pub fn raise(&mut self)
        ensures
            final(self).is_raised_spec(),
    {
        self.raised = true;
    }

    pub fn is_raised(&self) -> (r: bool)
        ensures
            r == self.is_raised_spec(),
    {
        self.raised
    }

    pub fn clear(&mut self)
        ensures
            !final(self).is_raised_spec(),
    {
        self.raised = false;
    }
}

/// Seeds the startup state: a single occupied cell at the grid's center,
/// with the changed signal raised.
pub fn seed_world(world: &mut World, changed: &mut WorldChanged)
    requires
        old(world).wf(),
    ensures
        final(world).wf(),
        forall|x: int, y: int, z: int|
            #[trigger] final(world).vox_at(x, y, z) == if x == 4 && y == 4 && z == 4 {
                Voxel::Brick
            } else {
                old(world).vox_at(x, y, z)
            },
        final(changed).is_raised_spec(),
{
    let center = WORLD_SIZE / 2;
    world.set(&Coord::new(center, center, center), Voxel::Brick);
    changed.raise();
}

} // verus!
