use voxel_tiles::autotile::{neighbors, Neighbors};
use voxel_tiles::classify::{
    all_cube_rotations, canonical_conns, classify, conn_dirs, rotate_dir, set_eq, IVec3, Rotation,
};
use voxel_tiles::tile_kind::TileKind;
use voxel_tiles::world::{Coord, Voxel, World};

fn nobody() -> Neighbors {
    Neighbors { nx: false, px: false, ny: false, py: false, nz: false, pz: false }
}

#[test]
fn from_name_knows_the_six_shapes() {
    assert_eq!(TileKind::from_name("solo"), Some(TileKind::Solo));
    assert_eq!(TileKind::from_name("end"), Some(TileKind::End));
    assert_eq!(TileKind::from_name("straight"), Some(TileKind::Straight));
    assert_eq!(TileKind::from_name("corner"), Some(TileKind::Corner));
    assert_eq!(TileKind::from_name("tee"), Some(TileKind::Tee));
    assert_eq!(TileKind::from_name("cross"), Some(TileKind::Cross));
    assert_eq!(TileKind::from_name("brick"), None);
    assert_eq!(TileKind::from_name("Solo"), None);
    assert_eq!(TileKind::from_name(""), None);
}

#[test]
fn twenty_four_distinct_cube_rotations() {
    let rots = all_cube_rotations();
    assert_eq!(rots.len(), 24);
    for i in 0..rots.len() {
        for j in 0..i {
            assert_ne!(rots[i], rots[j]);
        }
    }
    assert!(rots.contains(&Rotation::identity()));
}

#[test]
fn rotations_permute_the_axis_directions() {
    let dirs = [
        IVec3::new(1, 0, 0),
        IVec3::new(-1, 0, 0),
        IVec3::new(0, 1, 0),
        IVec3::new(0, -1, 0),
        IVec3::new(0, 0, 1),
        IVec3::new(0, 0, -1),
    ];
    for r in all_cube_rotations() {
        for d in dirs {
            let v = rotate_dir(r, d);
            assert!(dirs.contains(&v));
        }
    }
}

#[test]
fn solo_for_the_empty_neighborhood() {
    // a lone seeded cell classifies as Solo with the identity rotation
    let (kind, rot) = classify(nobody());
    assert_eq!(kind, TileKind::Solo);
    assert_eq!(rot, Rotation::identity());
}

#[test]
fn end_orientations_point_along_the_connection() {
    // two cells adjacent along +z: each is an End whose orientation carries
    // the canonical single connection (-y) onto the actual one
    let toward_pz = Neighbors { pz: true, ..nobody() };
    let (kind, rot) = classify(toward_pz);
    assert_eq!(kind, TileKind::End);
    assert_eq!(rotate_dir(rot, IVec3::new(0, -1, 0)), IVec3::new(0, 0, 1));

    let toward_nz = Neighbors { nz: true, ..nobody() };
    let (kind2, rot2) = classify(toward_nz);
    assert_eq!(kind2, TileKind::End);
    assert_eq!(rotate_dir(rot2, IVec3::new(0, -1, 0)), IVec3::new(0, 0, -1));
}

#[test]
fn straight_run_classifies_middle_and_ends() {
    let mut w = World::new();
    w.set(&Coord::new(3, 4, 4), Voxel::Brick);
    w.set(&Coord::new(4, 4, 4), Voxel::Brick);
    w.set(&Coord::new(5, 4, 4), Voxel::Brick);

    let (mid, _) = classify(neighbors(&w, Coord::new(4, 4, 4)));
    assert_eq!(mid, TileKind::Straight);
    let (left, _) = classify(neighbors(&w, Coord::new(3, 4, 4)));
    assert_eq!(left, TileKind::End);
    let (right, _) = classify(neighbors(&w, Coord::new(5, 4, 4)));
    assert_eq!(right, TileKind::End);
}

#[test]
fn shape_counting_over_arrangements() {
    // 0 -> Solo, 1 -> End
    assert_eq!(classify(nobody()).0, TileKind::Solo);
    assert_eq!(classify(Neighbors { px: true, ..nobody() }).0, TileKind::End);
    // 2 antiparallel -> Straight; 2 adjacent -> Corner
    assert_eq!(classify(Neighbors { ny: true, py: true, ..nobody() }).0, TileKind::Straight);
    assert_eq!(classify(Neighbors { nz: true, pz: true, ..nobody() }).0, TileKind::Straight);
    assert_eq!(classify(Neighbors { ny: true, px: true, ..nobody() }).0, TileKind::Corner);
    assert_eq!(classify(Neighbors { pz: true, py: true, ..nobody() }).0, TileKind::Corner);
    // 3 -> Tee, 4 or more -> Cross
    assert_eq!(classify(Neighbors { nx: true, px: true, ny: true, ..nobody() }).0, TileKind::Tee);
    assert_eq!(
        classify(Neighbors { nx: true, px: true, ny: true, py: true, ..nobody() }).0,
        TileKind::Cross
    );
    assert_eq!(
        classify(Neighbors { nx: true, px: true, ny: true, py: true, nz: true, ..nobody() }).0,
        TileKind::Cross
    );
}

#[test]
fn five_or_six_connections_fall_back_to_identity() {
    // the four-direction Cross canon cannot cover five or six directions:
    // the search finds no rotation and reports the identity
    let five = Neighbors { nx: true, px: true, ny: true, py: true, nz: true, pz: false };
    let (kind, rot) = classify(five);
    assert_eq!(kind, TileKind::Cross);
    assert_eq!(rot, Rotation::identity());

    let six = Neighbors { nx: true, px: true, ny: true, py: true, nz: true, pz: true };
    let (kind6, rot6) = classify(six);
    assert_eq!(kind6, TileKind::Cross);
    assert_eq!(rot6, Rotation::identity());
}

#[test]
fn set_eq_counts_multiplicities() {
    let v = IVec3::new(1, 0, 0);
    let w = IVec3::new(0, 1, 0);
    // same elements, different multiplicities: sorting and comparing
    // tells them apart, and so must the order-independent comparison
    assert!(!set_eq(&vec![v, v, w], &vec![v, w, w]));
    assert!(!set_eq(&vec![v], &vec![v, v]));
    // same multiplicities in another order are equal
    assert!(set_eq(&vec![v, v, w], &vec![w, v, v]));
    assert!(set_eq(&vec![], &vec![]));
}

#[test]
fn orthogonal_triple_falls_back_to_identity() {
    // three mutually orthogonal connections: still a Tee by count, but the
    // T-shaped canon cannot cover them, so the rotation search gives up
    let corner3 = Neighbors { px: true, py: true, pz: true, ..nobody() };
    let (kind, rot) = classify(corner3);
    assert_eq!(kind, TileKind::Tee);
    assert_eq!(rot, Rotation::identity());
}

#[test]
fn classify_is_deterministic() {
    let nei = Neighbors { nx: true, py: true, pz: true, ..nobody() };
    let a = classify(nei);
    let b = classify(nei);
    assert_eq!(a, b);
}

#[test]
fn returned_rotation_carries_canon_onto_the_pattern() {
    // for matchable patterns, rotating the canonical set by the returned
    // orientation yields exactly the occupied-direction set
    let cases = [
        Neighbors { px: true, ..nobody() },
        Neighbors { nx: true, pz: true, ..nobody() },
        Neighbors { ny: true, py: true, ..nobody() },
        Neighbors { nx: true, px: true, pz: true, ..nobody() },
        Neighbors { nx: true, px: true, nz: true, pz: true, ..nobody() },
    ];
    for nei in cases {
        let (kind, rot) = classify(nei);
        let canon = canonical_conns(kind);
        let mut rotated: Vec<IVec3> = Vec::new();
        for d in &canon {
            rotated.push(rotate_dir(rot, *d));
        }
        let actual = conn_dirs(nei);
        assert!(set_eq(&rotated, &actual));
    }
}
