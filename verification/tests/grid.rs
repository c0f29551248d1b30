use voxel_tiles::world::{Coord, Voxel, World, WorldChanged, seed_world, WORLD_SIZE};

#[test]
fn world_size_is_eight() {
    assert_eq!(WORLD_SIZE, 8);
}

#[test]
fn new_world_is_all_air() {
    let w = World::new();
    for y in 0..8 {
        for z in 0..8 {
            for x in 0..8 {
                assert_eq!(w.get(&Coord::new(x, y, z)), Voxel::Air);
            }
        }
    }
}

#[test]
fn get_out_of_bounds_is_air() {
    let mut w = World::new();
    w.set(&Coord::new(0, 0, 0), Voxel::Brick);
    assert_eq!(w.get(&Coord::new(-1, 0, 0)), Voxel::Air);
    assert_eq!(w.get(&Coord::new(8, 0, 0)), Voxel::Air);
    assert_eq!(w.get(&Coord::new(0, -1, 0)), Voxel::Air);
    assert_eq!(w.get(&Coord::new(0, 8, 0)), Voxel::Air);
    assert_eq!(w.get(&Coord::new(0, 0, -1)), Voxel::Air);
    assert_eq!(w.get(&Coord::new(0, 0, 8)), Voxel::Air);
    assert_eq!(w.get(&Coord::new(i32::MIN, i32::MAX, 3)), Voxel::Air);
}

#[test]
fn set_out_of_bounds_is_noop() {
    let mut w = World::new();
    w.set(&Coord::new(2, 3, 4), Voxel::Brick);
    w.set(&Coord::new(-1, 0, 0), Voxel::Brick);
    w.set(&Coord::new(8, 7, 7), Voxel::Brick);
    w.set(&Coord::new(0, 0, 100), Voxel::Brick);
    // grid state is unchanged: the one set cell, everything else air
    for y in 0..8 {
        for z in 0..8 {
            for x in 0..8 {
                let expect = if (x, y, z) == (2, 3, 4) { Voxel::Brick } else { Voxel::Air };
                assert_eq!(w.get(&Coord::new(x, y, z)), expect);
            }
        }
    }
}

#[test]
fn set_then_get_roundtrip() {
    let mut w = World::new();
    w.set(&Coord::new(7, 0, 3), Voxel::Brick);
    assert_eq!(w.get(&Coord::new(7, 0, 3)), Voxel::Brick);
    w.set(&Coord::new(7, 0, 3), Voxel::Air);
    assert_eq!(w.get(&Coord::new(7, 0, 3)), Voxel::Air);
}

#[test]
fn in_bounds_matches_the_cube() {
    assert!(World::in_bounds(&Coord::new(0, 0, 0)));
    assert!(World::in_bounds(&Coord::new(7, 7, 7)));
    assert!(!World::in_bounds(&Coord::new(-1, 0, 0)));
    assert!(!World::in_bounds(&Coord::new(0, 8, 0)));
    assert!(!World::in_bounds(&Coord::new(0, 0, 8)));
}

#[test]
fn seed_world_fills_the_center_and_raises() {
    let mut w = World::new();
    let mut changed = WorldChanged::new();
    assert!(!changed.is_raised());
    seed_world(&mut w, &mut changed);
    assert_eq!(w.get(&Coord::new(4, 4, 4)), Voxel::Brick);
    assert_eq!(w.get(&Coord::new(3, 4, 4)), Voxel::Air);
    assert!(changed.is_raised());
}

#[test]
fn changed_signal_coalesces_and_clears() {
    let mut changed = WorldChanged::new();
    changed.raise();
    changed.raise();
    assert!(changed.is_raised());
    changed.clear();
    assert!(!changed.is_raised());
    changed.clear();
    assert!(!changed.is_raised());
}
