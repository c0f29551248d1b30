//! The tile asset table: one (mesh, material) pair per tile shape, filled
//! from named entries as the asset loader delivers them, and marked ready
//! once all six shapes are present.
//!
//! Meshes and materials themselves live with the renderer; the table holds
//! them as plain handle identifiers.

use vstd::prelude::*;

use crate::tile_kind::TileKind;
use crate::tile_kind::kind_index_spec;
use crate::tile_kind::kind_index;
use crate::tile_kind::kind_of_name;
use crate::world::WorldChanged;

verus! {

/// Handles of one tile's renderable assets, as plain identifiers the
/// renderer resolves.
#[derive(Clone, Copy, Debug, PartialEq, Eq, Structural)]
pub struct TileAsset {
    pub mesh: u64,
    pub material: u64,
}

/// The asset table: a slot per tile kind, and the readiness flag that
/// scene sync polls.
pub struct Tileset {
    pub tiles: Vec<Option<TileAsset>>,
    pub ready: bool,
}

impl Tileset {
    /// Structural invariant: exactly one slot per tile kind.
    pub open spec fn wf(self) -> bool {
        self.tiles@.len() == 6
    }

    /// The asset stored for a kind, if any.
    pub open spec fn asset_for(self, kind: TileKind) -> Option<TileAsset> {
        self.tiles@[kind_index_spec(kind)]
    }

    /// Every kind has an asset.
    pub open spec fn complete(self) -> bool {
        forall|i: int| 0 <= i < 6 ==> self.tiles@[i] is Some
    }

    /// An empty table, not ready.
    pub fn new() -> (t: Tileset)
        ensures
            t.wf(),
            !t.ready,
            forall|kind: TileKind| #[trigger] t.asset_for(kind) is None,
    {
        let mut tiles: Vec<Option<TileAsset>> = Vec::new();
        let mut i: usize = 0;
        while i < 6
            invariant
                i <= 6,
                tiles@.len() == i as int,
                forall|k: int| 0 <= k < i as int ==> tiles@[k] is None,
            decreases 6 - i,
        {
            tiles.push(None);
            i = i + 1;
        }
        Tileset { tiles, ready: false }
    }

    /// Looks a kind's asset up.
    pub fn get(&self, kind: TileKind) -> (r: Option<TileAsset>)
        requires
            self.wf(),
        ensures
            r == self.asset_for(kind),
    {
        self.tiles[kind_index(kind)]
    }

    /// Whether every kind has an asset.
    pub fn is_complete(&self) -> (r: bool)
        requires
            self.wf(),
        ensures
            r == self.complete(),
    {
        let mut i: usize = 0;
        while i < 6
            invariant
                i <= 6,
                self.wf(),
                forall|k: int| 0 <= k < i as int ==> self.tiles@[k] is Some,
            decreases 6 - i,
        {
            if self.tiles[i].is_none() {
                return false;
            }
            i = i + 1;
        }
        true
    }

    /// Takes one named entry from the loader: a recognized name whose kind
    /// has no asset yet fills that slot; anything else is ignored.
    pub fn add_named(&mut self, name: &str, asset: TileAsset) -> (inserted: bool)
        requires
            old(self).wf(),
        ensures
            final(self).wf(),
            final(self).ready == old(self).ready,
            match kind_of_name(name@) {
                None => !inserted && final(self).tiles@ == old(self).tiles@,
                Some(kind) => {
                    if old(self).asset_for(kind) is Some {
                        !inserted && final(self).tiles@ == old(self).tiles@
                    } else {
                        inserted && final(self).tiles@ == old(self).tiles@.update(
                            kind_index_spec(kind),
                            Some(asset),
                        )
                    }
                },
            },
    {
        let kind = match TileKind::from_name(name) {
            None => {
                return false;
            },
            Some(kind) => kind,
        };
        let i = kind_index(kind);
        if self.tiles[i].is_some() {
            return false;
        }
        self.tiles[i] = Some(asset);
        true
    }

    /// Once every slot is filled, flips the readiness flag and raises the
    /// changed signal so scene sync rebuilds; before that, does nothing.
    pub fn finish_when_complete(&mut self, changed: &mut WorldChanged)
        requires
            old(self).wf(),
        ensures
            final(self).wf(),
            final(self).tiles@ == old(self).tiles@,
            old(self).complete() ==> final(self).ready && final(changed).is_raised_spec(),
            !old(self).complete() ==> final(self).ready == old(self).ready
                && final(changed).is_raised_spec() == old(changed).is_raised_spec(),
    {
        if self.is_complete() {
            self.ready = true;
            changed.raise();
        }
    }
}

/// One polling pass of the loader's output: feeds each named entry to the
/// table, then marks it ready if all six shapes arrived. A table already
/// ready is left alone, as are entries with unknown or duplicate names.
pub fn populate_tileset(
    tileset: &mut Tileset,
    entries: &Vec<(String, TileAsset)>,
    changed: &mut WorldChanged,
) -> (inserted: usize)
    requires
        old(tileset).wf(),
    ensures
        final(tileset).wf(),
        old(tileset).ready ==> final(tileset).tiles@ == old(tileset).tiles@
            && final(tileset).ready && inserted == 0
            && final(changed).is_raised_spec() == old(changed).is_raised_spec(),
        !old(tileset).ready ==> {
            &&& final(tileset).tiles@ == fold_entries(old(tileset).tiles@, entries@.map_values(
                |e: (String, TileAsset)| (e.0@, e.1),
            ))
            &&& inserted as int == fold_inserted(old(tileset).tiles@, entries@.map_values(
                |e: (String, TileAsset)| (e.0@, e.1),
            ))
            &&& (tiles_complete(final(tileset).tiles@) ==> final(tileset).ready
                && final(changed).is_raised_spec())
            &&& (!tiles_complete(final(tileset).tiles@) ==> !final(tileset).ready
                && final(changed).is_raised_spec() == old(changed).is_raised_spec())
        },
{
    if tileset.ready {
        return 0;
    }
    let mut inserted: usize = 0;
    let mut i: usize = 0;
    while i < entries.len()
        invariant
            tileset.wf(),
            !tileset.ready,
            i <= entries@.len(),
            inserted <= i,
            tileset.tiles@ == fold_entries(
                old(tileset).tiles@,
                entries@.map_values(|e: (String, TileAsset)| (e.0@, e.1)).take(i as int),
            ),
            inserted as int == fold_inserted(
                old(tileset).tiles@,
                entries@.map_values(|e: (String, TileAsset)| (e.0@, e.1)).take(i as int),
            ),
        decreases entries@.len() - i,
    {
        let (name, asset) = &entries[i];
        let did = tileset.add_named(name.as_str(), *asset);
        if did {
            inserted = inserted + 1;
        }
        proof {
            let ghost mapped = entries@.map_values(|e: (String, TileAsset)| (e.0@, e.1));
            assert(mapped.take(i as int + 1).drop_last() =~= mapped.take(i as int));
            assert(mapped.take(i as int + 1).last() == mapped[i as int]);
        }
        i = i + 1;
    }
    proof {
        let ghost mapped = entries@.map_values(|e: (String, TileAsset)| (e.0@, e.1));
        assert(mapped.take(mapped.len() as int) =~= mapped);
    }
    tileset.finish_when_complete(changed);
    inserted
}

/// Every slot of a table is filled.
pub open spec fn tiles_complete(tiles: Seq<Option<TileAsset>>) -> bool {
    forall|i: int| 0 <= i < 6 ==> tiles[i] is Some
}

/// How many of the named entries, taken in order, fill a slot.
pub open spec fn fold_inserted(
    tiles: Seq<Option<TileAsset>>,
    entries: Seq<(Seq<char>, TileAsset)>,
) -> int
    decreases entries.len(),
{
    if entries.len() == 0 {
        0
    } else {
        let prior = fold_entries(tiles, entries.drop_last());
        let taken: int = match kind_of_name(entries.last().0) {
            None => 0,
            Some(kind) => if prior[kind_index_spec(kind)] is Some {
                0
            } else {
                1
            },
        };
        fold_inserted(tiles, entries.drop_last()) + taken
    }
}

/// The slot table after taking the named entries in order: a recognized
/// name fills its kind's slot when that slot is still empty.
pub open spec fn fold_entries(
    tiles: Seq<Option<TileAsset>>,
    entries: Seq<(Seq<char>, TileAsset)>,
) -> Seq<Option<TileAsset>>
    decreases entries.len(),
{
    if entries.len() == 0 {
        tiles
    } else {
        let prior = fold_entries(tiles, entries.drop_last());
        let e = entries.last();
        match kind_of_name(e.0) {
            None => prior,
            Some(kind) => {
                if prior[kind_index_spec(kind)] is Some {
                    prior
                } else {
                    prior.update(kind_index_spec(kind), Some(e.1))
                }
            },
        }
    }
}

} // verus!
