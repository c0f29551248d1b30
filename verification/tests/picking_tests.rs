use voxel_tiles::classify::IVec3;
use voxel_tiles::picking::{mouse_edit_voxels, raycast_voxels, Ray};
use voxel_tiles::world::{Coord, Voxel, World, WorldChanged, seed_world};

fn seeded() -> World {
    let mut w = World::new();
    w.set(&Coord::new(4, 4, 4), Voxel::Brick);
    w
}

/// Straight down from high above the grid: cell (4,4,4) spans the unit
/// cube from (0,0,0) to (1,1,1) in world space, so a ray from (0, 20, 0)
/// along -y strikes its top face.
#[test]
fn ray_straight_down_hits_the_center_cell() {
    let w = seeded();
    let ray = Ray::new(0, 20, 0, 0, -1, 0, 1);
    let hit = raycast_voxels(&w, &ray).expect("must hit");
    assert_eq!(hit.coord, Coord::new(4, 4, 4));
    assert_eq!(hit.normal, IVec3::new(0, 1, 0));
    assert_eq!((hit.t_num, hit.t_den), (19, 1));
}

#[test]
fn each_face_reports_its_outward_normal() {
    let w = seeded();
    // aimed at the center of each face from outside, scale 2 so the box
    // of cell (4,4,4) runs from (0,0,0) to (2,2,2) in ray numerators
    let cases = [
        (Ray::new(-10, 1, 1, 1, 0, 0, 2), IVec3::new(-1, 0, 0)),
        (Ray::new(14, 1, 1, -1, 0, 0, 2), IVec3::new(1, 0, 0)),
        (Ray::new(1, -10, 1, 0, 1, 0, 2), IVec3::new(0, -1, 0)),
        (Ray::new(1, 14, 1, 0, -1, 0, 2), IVec3::new(0, 1, 0)),
        (Ray::new(1, 1, -10, 0, 0, 1, 2), IVec3::new(0, 0, -1)),
        (Ray::new(1, 1, 14, 0, 0, -1, 2), IVec3::new(0, 0, 1)),
    ];
    for (ray, normal) in cases {
        let hit = raycast_voxels(&w, &ray).expect("must hit");
        assert_eq!(hit.coord, Coord::new(4, 4, 4));
        assert_eq!(hit.normal, normal);
    }
}

#[test]
fn empty_grid_is_never_hit() {
    let w = World::new();
    let rays = [
        Ray::new(0, 20, 0, 0, -1, 0, 1),
        Ray::new(-9, 1, 1, 2, 0, 0, 2),
        Ray::new(3, 3, 3, -1, -1, -1, 1),
    ];
    for ray in rays {
        assert!(raycast_voxels(&w, &ray).is_none());
    }
}

#[test]
fn ray_pointing_away_misses() {
    let w = seeded();
    // above the cell, aimed upward: the entry parameter would be negative
    let ray = Ray::new(1, 6, 1, 0, 1, 0, 2);
    assert!(raycast_voxels(&w, &ray).is_none());
}

#[test]
fn origin_inside_the_cell_does_not_hit_it() {
    let w = seeded();
    // the entry into the box lies behind an origin placed inside it
    let ray = Ray::new(1, 1, 1, 0, -1, 0, 2);
    assert!(raycast_voxels(&w, &ray).is_none());
}

#[test]
fn zero_direction_hits_nothing() {
    let w = seeded();
    let ray = Ray::new(0, 20, 0, 0, 0, 0, 1);
    assert!(raycast_voxels(&w, &ray).is_none());
}

#[test]
fn parallel_axis_outside_the_slab_misses() {
    let w = seeded();
    // travels along +z at x = 5, far outside the cell's x span
    let ray = Ray::new(5, 0, -10, 0, 0, 1, 1);
    assert!(raycast_voxels(&w, &ray).is_none());
}

#[test]
fn nearest_of_two_cells_wins() {
    let mut w = World::new();
    w.set(&Coord::new(4, 4, 4), Voxel::Brick);
    w.set(&Coord::new(4, 6, 4), Voxel::Brick);
    // from above, the higher cell (box from y=2 to y=3) is struck first
    let ray = Ray::new(0, 10, 0, 0, -1, 0, 1);
    let hit = raycast_voxels(&w, &ray).expect("must hit");
    assert_eq!(hit.coord, Coord::new(4, 6, 4));
    assert_eq!(hit.normal, IVec3::new(0, 1, 0));
    assert_eq!((hit.t_num, hit.t_den), (7, 1));
}

#[test]
fn remove_clears_the_struck_cell() {
    let mut w = seeded();
    let mut changed = WorldChanged::new();
    let ray = Ray::new(0, 20, 0, 0, -1, 0, 1);
    mouse_edit_voxels(&mut w, &mut changed, &ray, false, true);
    assert_eq!(w.get(&Coord::new(4, 4, 4)), Voxel::Air);
    assert!(changed.is_raised());
}

#[test]
fn add_fills_the_cell_beyond_the_struck_face() {
    let mut w = seeded();
    let mut changed = WorldChanged::new();
    let ray = Ray::new(0, 20, 0, 0, -1, 0, 1);
    mouse_edit_voxels(&mut w, &mut changed, &ray, true, false);
    assert_eq!(w.get(&Coord::new(4, 5, 4)), Voxel::Brick);
    assert_eq!(w.get(&Coord::new(4, 4, 4)), Voxel::Brick);
    assert!(changed.is_raised());
}

#[test]
fn add_beyond_the_boundary_is_ignored() {
    let mut w = World::new();
    w.set(&Coord::new(4, 7, 4), Voxel::Brick);
    let mut changed = WorldChanged::new();
    // top face of the topmost cell: the adjacent cell is out of bounds
    let ray = Ray::new(0, 20, 0, 0, -1, 0, 1);
    mouse_edit_voxels(&mut w, &mut changed, &ray, true, false);
    for y in 0..8 {
        for z in 0..8 {
            for x in 0..8 {
                let expect = if (x, y, z) == (4, 7, 4) { Voxel::Brick } else { Voxel::Air };
                assert_eq!(w.get(&Coord::new(x, y, z)), expect);
            }
        }
    }
    assert!(!changed.is_raised());
}

#[test]
fn remove_wins_when_both_buttons_fire() {
    let mut w = seeded();
    let mut changed = WorldChanged::new();
    let ray = Ray::new(0, 20, 0, 0, -1, 0, 1);
    mouse_edit_voxels(&mut w, &mut changed, &ray, true, true);
    assert_eq!(w.get(&Coord::new(4, 4, 4)), Voxel::Air);
    assert_eq!(w.get(&Coord::new(4, 5, 4)), Voxel::Air);
}

#[test]
fn no_intent_changes_nothing() {
    let mut w = seeded();
    let mut changed = WorldChanged::new();
    let ray = Ray::new(0, 20, 0, 0, -1, 0, 1);
    mouse_edit_voxels(&mut w, &mut changed, &ray, false, false);
    assert_eq!(w.get(&Coord::new(4, 4, 4)), Voxel::Brick);
    assert!(!changed.is_raised());
}

#[test]
fn edit_round_trip_restores_the_grid() {
    let mut w = World::new();
    let mut changed = WorldChanged::new();
    seed_world(&mut w, &mut changed);
    changed.clear();

    // add on the top face fills the adjacent cell above, remove with the
    // same ray then strikes that new cell first and takes it back out
    let ray = Ray::new(0, 20, 0, 0, -1, 0, 1);
    mouse_edit_voxels(&mut w, &mut changed, &ray, true, false);
    assert_eq!(w.get(&Coord::new(4, 5, 4)), Voxel::Brick);
    mouse_edit_voxels(&mut w, &mut changed, &ray, false, true);

    for y in 0..8 {
        for z in 0..8 {
            for x in 0..8 {
                let expect = if (x, y, z) == (4, 4, 4) { Voxel::Brick } else { Voxel::Air };
                assert_eq!(w.get(&Coord::new(x, y, z)), expect);
            }
        }
    }
}
