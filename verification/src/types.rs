use vstd::prelude::*;

verus! {

/// Side of a chunk, in tiles.
pub const CHUNK_SIZE: i32 = 32;

/// Side of a region, in chunks.
pub const REGION_SIZE: i32 = 16;

/// Side of a sub-world, in tiles.
pub const SUBWORLD_SIZE: i32 = 512;

/// A tile position, either inside one sub-world or on the global grid.
#[derive(Debug, Clone, Copy, PartialEq, Eq, Hash, Structural)]
pub struct Coord {
    pub x: i32,
    pub y: i32,
}

/// Floor of `v / SUBWORLD_SIZE`: the index of the sub-world strip holding `v`.
pub open spec fn strip_of(v: int) -> int {
    v / (SUBWORLD_SIZE as int)
}

impl Coord {
    pub fn new(x: i32, y: i32) -> (r: Self)
        ensures
            r == (Coord { x, y }),
    {
        Coord { x, y }
    }

    /// The sub-world that holds this global position.
    pub fn sub_world_id(&self) -> (r: (i64, i64))
        ensures
            r.0 == strip_of(self.x as int),
            r.1 == strip_of(self.y as int),
    {
        (floor_div_subworld(self.x), floor_div_subworld(self.y))
    }
}

fn floor_div_subworld(v: i32) -> (r: i64)
    ensures
        r == strip_of(v as int),
{
    let w = v as i64;
    if w >= 0 {
        w / 512
    } else {
        let q = (511 - w) / 512;
        assert(-q == strip_of(v as int)) by (nonlinear_arith)
            requires
                w < 0,
                q == (511 - w) / 512,
                w == v,
        ;
        -q
    }
}

/// Bit flags of a tile.
#[derive(Debug, Clone, Copy, PartialEq, Eq, Structural)]
pub struct TileFlags(pub u8);

/// The tile stops movement.
pub const BLOCKS_MOVEMENT: u8 = 1;

/// The tile stops sight.
pub const BLOCKS_VISION: u8 = 2;

/// The tile is a door.
pub const IS_DOOR: u8 = 4;

/// The tile is water.
pub const IS_WATER: u8 = 8;

impl TileFlags {
    pub fn new(flags: u8) -> (r: Self)
        ensures
            r == TileFlags(flags),
    {
        TileFlags(flags)
    }

    pub open spec fn has_spec(&self, flag: u8) -> bool {
        self.0 & flag != 0
    }

    pub fn has(&self, flag: u8) -> (r: bool)
        ensures
            r == self.has_spec(flag),
    {
        self.0 & flag != 0
    }

    pub fn blocks_movement(&self) -> (r: bool)
        ensures
            r == self.has_spec(BLOCKS_MOVEMENT),
    {
        self.has(BLOCKS_MOVEMENT)
    }

    pub fn blocks_vision(&self) -> (r: bool)
        ensures
            r == self.has_spec(BLOCKS_VISION),
    {
        self.has(BLOCKS_VISION)
    }
}

/// A tile as the client sees it.
#[derive(Debug, Clone, Copy, PartialEq, Eq, Structural)]
pub struct TileData {
    pub pos: Coord,
    pub tile_type: u8,
    pub flags: TileFlags,
    pub fg_color: u32,
    pub bg_color: u32,
}

/// An entity as the client sees it.
#[derive(Debug, PartialEq)]
pub struct EntityData {
    pub id: u32,
    pub entity_type: u8,
    pub name: String,
    pub pos: Coord,
    pub hp: i32,
    pub max_hp: i32,
    pub is_player: bool,
}

impl Clone for EntityData {
    fn clone(&self) -> (r: Self)
        ensures
            r == *self,
    {
        EntityData {
            id: self.id,
            entity_type: self.entity_type,
            name: self.name.clone(),
            pos: self.pos,
            hp: self.hp,
            max_hp: self.max_hp,
            is_player: self.is_player,
        }
    }
}

/// A stack of items on the ground as the client sees it.
#[derive(Debug, Clone, Copy, PartialEq, Eq, Structural)]
pub struct ItemStack {
    pub item_id: u32,
    pub quantity: u32,
}

/// One line of the message log.
#[derive(Debug, PartialEq)]
pub struct LogEntry {
    pub text: String,
    pub color: u32,
    pub turn: u64,
}

impl Clone for LogEntry {
    fn clone(&self) -> (r: Self)
        ensures
            r == *self,
    {
        LogEntry { text: self.text.clone(), color: self.color, turn: self.turn }
    }
}

} // verus!
