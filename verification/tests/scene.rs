use voxel_tiles::chunk::{remesh_on_world_changed, tile_placements};
use voxel_tiles::classify::Rotation;
use voxel_tiles::tile_kind::TileKind;
use voxel_tiles::tileset::{populate_tileset, TileAsset, Tileset};
use voxel_tiles::world::{Coord, Voxel, World, WorldChanged};

fn asset(n: u64) -> TileAsset {
    TileAsset { mesh: n, material: 100 + n }
}

fn full_tileset() -> Tileset {
    let mut ts = Tileset::new();
    let mut changed = WorldChanged::new();
    let entries: Vec<(String, TileAsset)> = vec![
        ("solo".to_string(), asset(1)),
        ("end".to_string(), asset(2)),
        ("straight".to_string(), asset(3)),
        ("corner".to_string(), asset(4)),
        ("tee".to_string(), asset(5)),
        ("cross".to_string(), asset(6)),
    ];
    populate_tileset(&mut ts, &entries, &mut changed);
    ts
}

#[test]
fn populate_fills_marks_ready_and_raises() {
    let mut ts = Tileset::new();
    let mut changed = WorldChanged::new();
    let entries: Vec<(String, TileAsset)> = vec![
        ("solo".to_string(), asset(1)),
        ("end".to_string(), asset(2)),
        ("straight".to_string(), asset(3)),
        ("corner".to_string(), asset(4)),
        ("tee".to_string(), asset(5)),
        ("cross".to_string(), asset(6)),
    ];
    let inserted = populate_tileset(&mut ts, &entries, &mut changed);
    assert_eq!(inserted, 6);
    assert!(ts.ready);
    assert!(changed.is_raised());
    assert_eq!(ts.get(TileKind::Solo), Some(asset(1)));
    assert_eq!(ts.get(TileKind::Cross), Some(asset(6)));
}

#[test]
fn populate_ignores_unknown_and_duplicate_names() {
    let mut ts = Tileset::new();
    let mut changed = WorldChanged::new();
    let entries: Vec<(String, TileAsset)> = vec![
        ("lamp".to_string(), asset(9)),
        ("end".to_string(), asset(2)),
        ("end".to_string(), asset(7)),
    ];
    let inserted = populate_tileset(&mut ts, &entries, &mut changed);
    assert_eq!(inserted, 1);
    assert!(!ts.ready);
    assert!(!changed.is_raised());
    // the first delivery of a name sticks
    assert_eq!(ts.get(TileKind::End), Some(asset(2)));
    assert_eq!(ts.get(TileKind::Solo), None);
}

#[test]
fn populate_leaves_a_ready_tileset_alone() {
    let mut ts = full_tileset();
    let mut changed = WorldChanged::new();
    let entries: Vec<(String, TileAsset)> = vec![("solo".to_string(), asset(42))];
    let inserted = populate_tileset(&mut ts, &entries, &mut changed);
    assert_eq!(inserted, 0);
    assert_eq!(ts.get(TileKind::Solo), Some(asset(1)));
    assert!(!changed.is_raised());
}

#[test]
fn add_named_reports_insertion() {
    let mut ts = Tileset::new();
    assert!(ts.add_named("tee", asset(5)));
    assert!(!ts.add_named("tee", asset(6)));
    assert!(!ts.add_named("spiral", asset(7)));
    assert_eq!(ts.get(TileKind::Tee), Some(asset(5)));
}

#[test]
fn remesh_needs_a_raised_signal() {
    let mut w = World::new();
    w.set(&Coord::new(4, 4, 4), Voxel::Brick);
    let ts = full_tileset();
    let mut changed = WorldChanged::new();
    assert!(remesh_on_world_changed(&w, &ts, &mut changed).is_none());
}

#[test]
fn remesh_defers_until_assets_are_ready_and_keeps_the_signal() {
    let w = World::new();
    let ts = Tileset::new();
    let mut changed = WorldChanged::new();
    changed.raise();
    assert!(remesh_on_world_changed(&w, &ts, &mut changed).is_none());
    // the signal survives for the pass after loading finishes
    assert!(changed.is_raised());
}

#[test]
fn remesh_consumes_the_signal_and_places_the_seed_cell() {
    let mut w = World::new();
    w.set(&Coord::new(4, 4, 4), Voxel::Brick);
    let ts = full_tileset();
    let mut changed = WorldChanged::new();
    changed.raise();
    let placements = remesh_on_world_changed(&w, &ts, &mut changed).expect("must rebuild");
    assert!(!changed.is_raised());
    assert_eq!(placements.len(), 1);
    let p = &placements[0];
    assert_eq!(p.coord, Coord::new(4, 4, 4));
    assert_eq!(p.kind, TileKind::Solo);
    assert_eq!(p.rotation, Rotation::identity());
    assert_eq!(p.asset, asset(1));
}

#[test]
fn adjacent_cells_both_place_as_ends() {
    let mut w = World::new();
    w.set(&Coord::new(4, 4, 4), Voxel::Brick);
    w.set(&Coord::new(4, 4, 5), Voxel::Brick);
    let ts = full_tileset();
    let placements = tile_placements(&w, &ts);
    assert_eq!(placements.len(), 2);
    for p in &placements {
        assert_eq!(p.kind, TileKind::End);
        assert_eq!(p.asset, asset(2));
    }
    // scan order: z = 4 before z = 5
    assert_eq!(placements[0].coord, Coord::new(4, 4, 4));
    assert_eq!(placements[1].coord, Coord::new(4, 4, 5));
}

#[test]
fn cells_without_an_asset_are_skipped() {
    let mut w = World::new();
    w.set(&Coord::new(2, 2, 2), Voxel::Brick);
    w.set(&Coord::new(2, 2, 3), Voxel::Brick);
    // a table missing the End asset, forced ready
    let mut ts = Tileset::new();
    ts.add_named("solo", asset(1));
    ts.ready = true;
    let placements = tile_placements(&w, &ts);
    assert!(placements.is_empty());
}

#[test]
fn straight_run_places_middle_as_straight() {
    let mut w = World::new();
    w.set(&Coord::new(3, 4, 4), Voxel::Brick);
    w.set(&Coord::new(4, 4, 4), Voxel::Brick);
    w.set(&Coord::new(5, 4, 4), Voxel::Brick);
    let ts = full_tileset();
    let placements = tile_placements(&w, &ts);
    assert_eq!(placements.len(), 3);
    assert_eq!(placements[0].coord, Coord::new(3, 4, 4));
    assert_eq!(placements[0].kind, TileKind::End);
    assert_eq!(placements[1].coord, Coord::new(4, 4, 4));
    assert_eq!(placements[1].kind, TileKind::Straight);
    assert_eq!(placements[2].coord, Coord::new(5, 4, 4));
    assert_eq!(placements[2].kind, TileKind::End);
}
