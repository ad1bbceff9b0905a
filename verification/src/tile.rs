use vstd::prelude::*;

use crate::types::{TileFlags, BLOCKS_MOVEMENT, BLOCKS_VISION, IS_WATER};

verus! {

/// The kinds of terrain a map cell can hold.
#[derive(Debug, Clone, Copy, PartialEq, Eq, Structural)]
pub enum TileType {
    Floor,
    Wall,
    Door { open: bool },
    Water,
    StairsUp,
    StairsDown,
}

/// One map cell: its terrain and the flags derived from it.
#[derive(Debug, Clone, Copy, PartialEq, Eq, Structural)]
pub struct Tile {
    pub tile_type: TileType,
    pub flags: TileFlags,
}

/// The flags a freshly built tile of a given kind carries.
pub open spec fn flags_for(t: TileType) -> u8 {
    match t {
        TileType::Wall => 3,
        TileType::Door { open } => if open { 0 } else { 3 },
        TileType::Water => 9,
        _ => 0,
    }
}

/// The wire code of a tile kind, as sent to clients and written to saves.
pub open spec fn type_code_spec(t: TileType) -> u8 {
    match t {
        TileType::Floor => 0,
        TileType::Wall => 1,
        TileType::Door { open } => if open { 2 } else { 3 },
        TileType::Water => 4,
        TileType::StairsUp => 5,
        TileType::StairsDown => 6,
    }
}

/// The foreground colour of a tile kind.
pub open spec fn fg_color_spec(t: TileType) -> u32 {
    match t {
        TileType::Floor => 0x888888,
        TileType::Wall => 0x444444,
        TileType::Door { .. } => 0x8B4513,
        TileType::Water => 0x0000FF,
        TileType::StairsUp => 0xFFFF00,
        TileType::StairsDown => 0xFF8800,
    }
}

impl TileType {
    /// The wire code of this tile kind.
    pub fn code(&self) -> (r: u8)
        ensures
            r == type_code_spec(*self),
    {
        match self {
            TileType::Floor => 0,
            TileType::Wall => 1,
            TileType::Door { open } => if *open { 2 } else { 3 },
            TileType::Water => 4,
            TileType::StairsUp => 5,
            TileType::StairsDown => 6,
        }
    }
}

impl Tile {
    /// Whether a creature can step onto this tile.
    pub open spec fn passable_spec(&self) -> bool {
        self.tile_type == (TileType::Door { open: true }) || !self.flags.has_spec(BLOCKS_MOVEMENT)
    }

    /// Whether this tile stops sight.
    pub open spec fn blocks_vision_spec(&self) -> bool {
        self.tile_type != (TileType::Door { open: true }) && self.flags.has_spec(BLOCKS_VISION)
    }

    pub fn new(tile_type: TileType) -> (r: Self)
        ensures
            r.tile_type == tile_type,
            r.flags == TileFlags(flags_for(tile_type)),
    {
        let flags = match tile_type {
            TileType::Wall => TileFlags::new(BLOCKS_MOVEMENT | BLOCKS_VISION),
            TileType::Door { open: false } => TileFlags::new(BLOCKS_MOVEMENT | BLOCKS_VISION),
            TileType::Door { open: true } => TileFlags::new(0),
            TileType::Water => TileFlags::new(BLOCKS_MOVEMENT | IS_WATER),
            _ => TileFlags::new(0),
        };
        assert(BLOCKS_MOVEMENT | BLOCKS_VISION == 3u8) by (bit_vector);
        assert(BLOCKS_MOVEMENT | IS_WATER == 9u8) by (bit_vector);
        Tile { tile_type, flags }
    }

    pub fn is_passable(&self) -> (r: bool)
        ensures
            r == self.passable_spec(),
    {
        matches!(self.tile_type, TileType::Door { open: true }) || !self.flags.blocks_movement()
    }

    pub fn blocks_vision(&self) -> (r: bool)
        ensures
            r == self.blocks_vision_spec(),
    {
        !matches!(self.tile_type, TileType::Door { open: true }) && self.flags.blocks_vision()
    }

    pub fn fg_color(&self) -> (r: u32)
        ensures
            r == fg_color_spec(self.tile_type),
    {
        match self.tile_type {
            TileType::Floor => 0x888888,
            TileType::Wall => 0x444444,
            TileType::Door { .. } => 0x8B4513,
            TileType::Water => 0x0000FF,
            TileType::StairsUp => 0xFFFF00,
            TileType::StairsDown => 0xFF8800,
        }
    }

    pub fn bg_color(&self) -> (r: u32)
        ensures
            r == 0,
    {
        0x000000
    }
}

/// A freshly built tile is passable exactly when it is floor, an open door or stairs,
/// and it blocks sight exactly when it is a wall or a closed door.
pub proof fn lemma_new_tile_properties(t: TileType)
    ensures
        ({
            let tile = Tile { tile_type: t, flags: TileFlags(flags_for(t)) };
            &&& tile.passable_spec() <==> (t is Floor || t == (TileType::Door { open: true })
                || t is StairsUp || t is StairsDown)
            &&& tile.blocks_vision_spec() <==> (t is Wall || t == (TileType::Door {
                open: false,
            }))
        }),
{
    assert(3u8 & 1u8 != 0 && 9u8 & 1u8 != 0 && 0u8 & 1u8 == 0) by (bit_vector);
    assert(3u8 & 2u8 != 0 && 9u8 & 2u8 == 0 && 0u8 & 2u8 == 0) by (bit_vector);
}

} // verus!
