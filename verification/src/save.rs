use vstd::prelude::*;

use std::collections::HashMap;

use crate::map::{cell_index, in_bounds_spec, map_cells, GameMap};
use crate::tile::type_code_spec;
use crate::types::SUBWORLD_SIZE;

verus! {

/// One map cell as written to a save: its wire code and flag bits.
#[derive(Debug, Clone, Copy, PartialEq, Eq, Structural)]
pub struct SavedTile {
    pub tile_type: u8,
    pub flags: u8,
}

/// A sub-world map as written to a save.
#[derive(Debug)]
pub struct SavedMap {
    pub width: i32,
    pub height: i32,
    pub tiles: Vec<SavedTile>,
    pub explored: Vec<bool>,
}

/// A whole world as written to a save: the seed and the map of every sub-world.
#[derive(Debug)]
pub struct SavedWorld {
    pub world_seed: u64,
    pub sub_worlds: HashMap<(i64, i64), SavedMap>,
}

/// The saved form of the cell at row-major position `i` of `map`.
pub open spec fn saved_tile_at(map: GameMap, i: int) -> SavedTile {
    let t = map.tiles_view()[i];
    SavedTile { tile_type: type_code_spec(t.tile_type), flags: t.flags.0 }
}

/// `r` is the saved form of `map`: every tile in row-major order and every explored flag.
pub open spec fn saves(r: SavedMap, map: GameMap) -> bool {
    &&& r.width == SUBWORLD_SIZE
    &&& r.height == SUBWORLD_SIZE
    &&& r.tiles@.len() == map_cells()
    &&& forall|i: int| 0 <= i < map_cells() ==> #[trigger] r.tiles@[i] == saved_tile_at(map, i)
    &&& r.explored@ == map.explored_view()
}

impl SavedMap {
    /// Capture a map for saving: every tile in row-major order and every explored flag.
    pub fn from_map(map: &GameMap) -> (r: SavedMap)
        requires
            map.wf(),
        ensures
            saves(r, *map),
    {
        let mut tiles: Vec<SavedTile> = Vec::new();
        let mut y: i32 = 0;
        while y < map.height()
            invariant
                map.wf(),
                0 <= y <= SUBWORLD_SIZE,
                tiles@.len() == y * SUBWORLD_SIZE,
                forall|i: int| 0 <= i < tiles@.len() ==> #[trigger] tiles@[i] == saved_tile_at(*map, i),
            decreases SUBWORLD_SIZE - y,
        {
            let mut x: i32 = 0;
            while x < map.width()
                invariant
                    map.wf(),
                    0 <= y < SUBWORLD_SIZE,
                    0 <= x <= SUBWORLD_SIZE,
                    tiles@.len() == y * SUBWORLD_SIZE + x,
                    forall|i: int| 0 <= i < tiles@.len() ==> #[trigger] tiles@[i] == saved_tile_at(*map, i),
                decreases SUBWORLD_SIZE - x,
            {
                if let Some(tile) = map.get_tile(x, y) {
                    tiles.push(SavedTile { tile_type: tile.tile_type.code(), flags: tile.flags.0 });
                    proof {
                        assert(cell_index(x as int, y as int) == y * SUBWORLD_SIZE + x);
                    }
                }
                x = x + 1;
            }
            y = y + 1;
        }
        proof {
            map.lemma_explored_storage();
        }
        let mut explored: Vec<bool> = Vec::new();
        let mut i: usize = 0;
        while i < map.explored.len()
            invariant
                i <= map.explored@.len(),
                explored@ == map.explored@.take(i as int),
            decreases map.explored@.len() - i,
        {
            explored.push(map.explored[i]);
            i = i + 1;
            assert(explored@ =~= map.explored@.take(i as int));
        }
        proof {
            assert(explored@ =~= map.explored_view());
        }
        SavedMap { width: map.width(), height: map.height(), tiles, explored }
    }
}

impl<'a> vstd::std_specs::convert::FromSpecImpl<&'a GameMap> for SavedMap {
    /// The result of `from` is described by `SavedMap::from_map`, over views.
    open spec fn obeys_from_spec() -> bool {
        false
    }

    open spec fn from_spec(v: &'a GameMap) -> SavedMap {
        vstd::pervasive::arbitrary()
    }
}

impl<'a> From<&'a GameMap> for SavedMap {
    /// `SavedMap::from_map`; a map whose layers do not cover the whole map (which no
    /// constructor of `GameMap` builds) gives an empty save.
    fn from(map: &'a GameMap) -> (r: SavedMap) {
        if map.covers_map() {
            SavedMap::from_map(map)
        } else {
            SavedMap { width: 0, height: 0, tiles: Vec::new(), explored: Vec::new() }
        }
    }
}

} // verus!
