use vstd::prelude::*;

use crate::tile::{flags_for, Tile, TileType};
use crate::types::{TileFlags, SUBWORLD_SIZE};

verus! {

/// Number of cells in a sub-world map.
pub open spec fn map_cells() -> int {
    (SUBWORLD_SIZE as int) * (SUBWORLD_SIZE as int)
}

/// Whether (x, y) lies on a sub-world map.
pub open spec fn in_bounds_spec(x: int, y: int) -> bool {
    0 <= x < SUBWORLD_SIZE as int && 0 <= y < SUBWORLD_SIZE as int
}

/// Row-major position of cell (x, y) in the map's storage.
pub open spec fn cell_index(x: int, y: int) -> int {
    y * (SUBWORLD_SIZE as int) + x
}

/// The tile a fresh constructor call builds for a kind.
pub open spec fn fresh_tile(t: TileType) -> Tile {
    Tile { tile_type: t, flags: TileFlags(flags_for(t)) }
}

pub proof fn lemma_cell_index_bounds(x: int, y: int)
    requires
        in_bounds_spec(x, y),
    ensures
        0 <= cell_index(x, y) < map_cells(),
{
}

pub proof fn lemma_cell_index_injective(x1: int, y1: int, x2: int, y2: int)
    requires
        in_bounds_spec(x1, y1),
        in_bounds_spec(x2, y2),
        cell_index(x1, y1) == cell_index(x2, y2),
    ensures
        x1 == x2 && y1 == y2,
{
}

/// Cell `i` of the square of side `2 * radius + 1` centred on (cx, cy), row by row.
pub open spec fn square_cell(cx: int, cy: int, radius: int, i: int) -> (int, int) {
    (cx - radius + i % (2 * radius + 1), cy - radius + i / (2 * radius + 1))
}

/// The cells of the square of side `2 * radius + 1` centred on (cx, cy), row by row; no
/// cells for a negative radius.
pub open spec fn square_cells(cx: int, cy: int, radius: int) -> Seq<(int, int)> {
    if radius < 0 {
        Seq::empty()
    } else {
        Seq::new(
            ((2 * radius + 1) * (2 * radius + 1)) as nat,
            |i: int| square_cell(cx, cy, radius, i),
        )
    }
}

/// The square map of one sub-world: a tile per cell, and whether each cell has been
/// seen by a player.
pub struct GameMap {
    pub(crate) tiles: Vec<Tile>,
    pub explored: Vec<bool>,
}

impl GameMap {
    /// The tiles in row-major order.
    pub closed spec fn tiles_view(&self) -> Seq<Tile> {
        self.tiles@
    }

    /// The explored flags in row-major order.
    pub closed spec fn explored_view(&self) -> Seq<bool> {
        self.explored@
    }

    /// The tile at an in-bounds cell.
    pub open spec fn tile_at(&self, x: int, y: int) -> Tile {
        self.tiles_view()[cell_index(x, y)]
    }

    /// Whether an in-bounds cell has been explored.
    pub open spec fn explored_at(&self, x: int, y: int) -> bool {
        self.explored_view()[cell_index(x, y)]
    }

    /// Passability of a cell, off-map cells being impassable.
    pub open spec fn passable_at(&self, x: int, y: int) -> bool {
        in_bounds_spec(x, y) && self.tile_at(x, y).passable_spec()
    }

    /// Opacity of a cell, off-map cells being opaque.
    pub open spec fn opaque_at(&self, x: int, y: int) -> bool {
        !in_bounds_spec(x, y) || self.tile_at(x, y).blocks_vision_spec()
    }

    /// Both layers cover the whole map.
    pub open spec fn wf(&self) -> bool {
        &&& self.tiles_view().len() == map_cells()
        &&& self.explored_view().len() == map_cells()
    }

    /// A map of walls, none explored.
    pub fn new() -> (r: Self)
        ensures
            r.wf(),
            forall|x: int, y: int|
                in_bounds_spec(x, y) ==> #[trigger] r.tile_at(x, y) == fresh_tile(TileType::Wall)
                    && !r.explored_at(x, y),
    {
        let count: usize = 262144;
        let wall = Tile::new(TileType::Wall);
        let tiles = vec![wall; count];
        let explored = vec![false; count];
        let r = GameMap { tiles, explored };
        assert forall|x: int, y: int| in_bounds_spec(x, y) implies #[trigger] r.tile_at(x, y)
            == fresh_tile(TileType::Wall) && !r.explored_at(x, y) by {
            lemma_cell_index_bounds(x, y);
        }
        r
    }

    pub(crate) proof fn lemma_explored_storage(&self)
        ensures
            self.explored_view() == self.explored@,
            self.tiles_view() == self.tiles@,
    {
    }

    /// Whether both layers cover the whole map.
    pub fn covers_map(&self) -> (r: bool)
        ensures
            r == self.wf(),
    {
        self.tiles.len() == 262144 && self.explored.len() == 262144
    }

    pub(crate) fn index(&self, x: i32, y: i32) -> (r: usize)
        requires
            in_bounds_spec(x as int, y as int),
        ensures
            r == cell_index(x as int, y as int),
            r < map_cells(),
    {
        (y as usize) * 512usize + (x as usize)
    }

    pub fn in_bounds(&self, x: i32, y: i32) -> (r: bool)
        ensures
            r == in_bounds_spec(x as int, y as int),
    {
        x >= 0 && x < SUBWORLD_SIZE && y >= 0 && y < SUBWORLD_SIZE
    }

    pub fn get_tile(&self, x: i32, y: i32) -> (r: Option<&Tile>)
        requires
            self.wf(),
        ensures
            r == (if in_bounds_spec(x as int, y as int) {
                Some(&self.tile_at(x as int, y as int))
            } else {
                None
            }),
    {
        if self.in_bounds(x, y) {
            Some(&self.tiles[self.index(x, y)])
        } else {
            None
        }
    }

    /// Replace the tile at (x, y); off-map positions are ignored.
    pub fn set_tile(&mut self, x: i32, y: i32, tile: Tile)
        requires
            old(self).wf(),
        ensures
            final(self).wf(),
            final(self).explored_view() == old(self).explored_view(),
            final(self).tiles_view() == (if in_bounds_spec(x as int, y as int) {
                old(self).tiles_view().update(cell_index(x as int, y as int), tile)
            } else {
                old(self).tiles_view()
            }),
    {
        if self.in_bounds(x, y) {
            let idx = self.index(x, y);
            self.tiles.set(idx, tile);
        }
    }

    /// Mark (x, y) explored or not; off-map positions are ignored.
    pub fn set_explored(&mut self, x: i32, y: i32, value: bool)
        requires
            old(self).wf(),
        ensures
            final(self).wf(),
            final(self).tiles_view() == old(self).tiles_view(),
            final(self).explored_view() == (if in_bounds_spec(x as int, y as int) {
                old(self).explored_view().update(cell_index(x as int, y as int), value)
            } else {
                old(self).explored_view()
            }),
    {
        if self.in_bounds(x, y) {
            let idx = self.index(x, y);
            self.explored.set(idx, value);
        }
    }

    pub fn is_passable(&self, x: i32, y: i32) -> (r: bool)
        requires
            self.wf(),
        ensures
            r == self.passable_at(x as int, y as int),
    {
        match self.get_tile(x, y) {
            Some(t) => t.is_passable(),
            None => false,
        }
    }

    pub fn blocks_vision(&self, x: i32, y: i32) -> (r: bool)
        requires
            self.wf(),
        ensures
            r == self.opaque_at(x as int, y as int),
    {
        match self.get_tile(x, y) {
            Some(t) => t.blocks_vision(),
            None => true,
        }
    }

    /// Build a fresh tile of one kind on every in-bounds cell of the rectangle with
    /// corner (x, y), width w and height h.
    pub fn fill_rect(&mut self, x: i32, y: i32, w: i32, h: i32, tile_type: TileType)
        requires
            old(self).wf(),
            w > 0 ==> x + w - 1 <= i32::MAX,
            h > 0 ==> y + h - 1 <= i32::MAX,
        ensures
            final(self).wf(),
            final(self).explored_view() == old(self).explored_view(),
            forall|px: int, py: int|
                in_bounds_spec(px, py) ==> #[trigger] final(self).tile_at(px, py) == (if x <= px
                    < x + w && y <= py < y + h {
                    fresh_tile(tile_type)
                } else {
                    old(self).tile_at(px, py)
                }),
    {
        let ghost old_tiles = self.tiles_view();
        let mut dy: i32 = 0;
        while dy < h
            invariant
                self.wf(),
                0 <= dy,
                h > 0 ==> dy <= h,
                h <= 0 ==> dy == 0,
                h > 0 ==> y + h - 1 <= i32::MAX,
                w > 0 ==> x + w - 1 <= i32::MAX,
                self.explored_view() == old(self).explored_view(),
                old_tiles == old(self).tiles_view(),
                forall|px: int, py: int|
                    in_bounds_spec(px, py) ==> #[trigger] self.tile_at(px, py) == (if x <= px < x
                        + w && y <= py < y + dy {
                        fresh_tile(tile_type)
                    } else {
                        old(self).tile_at(px, py)
                    }),
            decreases h - dy,
        {
            let mut dx: i32 = 0;
            while dx < w
                invariant
                    self.wf(),
                    0 <= dy < h,
                    0 <= dx,
                    w > 0 ==> dx <= w,
                    w <= 0 ==> dx == 0,
                    h > 0 ==> y + h - 1 <= i32::MAX,
                    w > 0 ==> x + w - 1 <= i32::MAX,
                    self.explored_view() == old(self).explored_view(),
                    forall|px: int, py: int|
                        in_bounds_spec(px, py) ==> #[trigger] self.tile_at(px, py) == (if (x <= px
                            < x + w && y <= py < y + dy) || (x <= px < x + dx && py == y + dy) {
                            fresh_tile(tile_type)
                        } else {
                            old(self).tile_at(px, py)
                        }),
                decreases w - dx,
            {
                let ghost before = *self;
                let t = Tile::new(tile_type);
                self.set_tile(x + dx, y + dy, t);
                proof {
                    assert forall|px: int, py: int| in_bounds_spec(px, py) implies #[trigger] self.tile_at(
                        px,
                        py,
                    ) == (if (x <= px < x + w && y <= py < y + dy) || (x <= px < x + dx + 1 && py
                        == y + dy) {
                        fresh_tile(tile_type)
                    } else {
                        old(self).tile_at(px, py)
                    }) by {
                        lemma_cell_index_bounds(px, py);
                        if in_bounds_spec((x + dx) as int, (y + dy) as int) {
                            lemma_cell_index_bounds((x + dx) as int, (y + dy) as int);
                            if cell_index(px, py) == cell_index((x + dx) as int, (y + dy) as int) {
                                lemma_cell_index_injective(px, py, (x + dx) as int, (y + dy) as int);
                            }
                        }
                        assert(before.tile_at(px, py) == before.tiles_view()[cell_index(px, py)]);
                    }
                }
                dx = dx + 1;
            }
            assert forall|px: int, py: int| in_bounds_spec(px, py) implies #[trigger] self.tile_at(
                px,
                py,
            ) == (if x <= px < x + w && y <= py < y + dy + 1 {
                fresh_tile(tile_type)
            } else {
                old(self).tile_at(px, py)
            }) by {
                assert(self.tile_at(px, py) == (if (x <= px < x + w && y <= py < y + dy) || (x
                    <= px < x + dx && py == y + dy) {
                    fresh_tile(tile_type)
                } else {
                    old(self).tile_at(px, py)
                }));
            }
            dy = dy + 1;
        }
    }

    /// The in-bounds cells of the square of side `2 * radius + 1` centred on (cx, cy),
    /// row by row, each with its tile.
    pub fn tiles_in_radius(&self, cx: i32, cy: i32, radius: i32) -> (r: Vec<(i32, i32, &Tile)>)
        requires
            self.wf(),
            radius < i32::MAX,
            radius >= 0 ==> i32::MIN <= cx - radius && cx + radius <= i32::MAX && i32::MIN <= cy
                - radius && cy + radius <= i32::MAX,
        ensures
            r@.map_values(|t: (i32, i32, &Tile)| (t.0 as int, t.1 as int, *t.2)) == square_cells(
                cx as int,
                cy as int,
                radius as int,
            ).filter(|c: (int, int)| in_bounds_spec(c.0, c.1)).map_values(
                |c: (int, int)| (c.0, c.1, self.tile_at(c.0, c.1)),
            ),
    {
        let ghost pred = |c: (int, int)| in_bounds_spec(c.0, c.1);
        let ghost f = |c: (int, int)| (c.0, c.1, self.tile_at(c.0, c.1));
        let ghost g = |t: (i32, i32, &Tile)| (t.0 as int, t.1 as int, *t.2);
        let mut r: Vec<(i32, i32, &Tile)> = Vec::new();
        if radius < 0 {
            assert(r@.map_values(g) =~= Seq::<(int, int, Tile)>::empty());
            return r;
        }
        let ghost w = 2 * radius + 1;
        let ghost cells = square_cells(cx as int, cy as int, radius as int);
        let mut dy: i32 = -radius;
        proof {
            reveal_with_fuel(Seq::<_>::filter, 1);
            assert(cells.take(0) =~= Seq::<(int, int)>::empty());
            assert((dy + radius) * w == 0) by (nonlinear_arith)
                requires
                    dy == -radius,
            ;
            assert(r@.map_values(g) =~= cells.take((dy + radius) * w).filter(pred).map_values(f));
        }
        while dy <= radius
            invariant
                self.wf(),
                0 <= radius < i32::MAX,
                i32::MIN <= cx - radius && cx + radius <= i32::MAX,
                i32::MIN <= cy - radius && cy + radius <= i32::MAX,
                -radius <= dy <= radius + 1,
                w == 2 * radius + 1,
                cells == square_cells(cx as int, cy as int, radius as int),
                cells.len() == w * w,
                pred == (|c: (int, int)| in_bounds_spec(c.0, c.1)),
                f == (|c: (int, int)| (c.0, c.1, self.tile_at(c.0, c.1))),
                g == (|t: (i32, i32, &Tile)| (t.0 as int, t.1 as int, *t.2)),
                r@.map_values(g) == cells.take((dy + radius) * w).filter(pred).map_values(f),
            decreases radius + 1 - dy,
        {
            let mut dx: i32 = -radius;
            while dx <= radius
                invariant
                    self.wf(),
                    0 <= radius < i32::MAX,
                    i32::MIN <= cx - radius && cx + radius <= i32::MAX,
                    i32::MIN <= cy - radius && cy + radius <= i32::MAX,
                    -radius <= dy <= radius,
                    -radius <= dx <= radius + 1,
                    w == 2 * radius + 1,
                    cells == square_cells(cx as int, cy as int, radius as int),
                    cells.len() == w * w,
                    pred == (|c: (int, int)| in_bounds_spec(c.0, c.1)),
                    f == (|c: (int, int)| (c.0, c.1, self.tile_at(c.0, c.1))),
                    g == (|t: (i32, i32, &Tile)| (t.0 as int, t.1 as int, *t.2)),
                    r@.map_values(g) == cells.take((dy + radius) * w + (dx + radius)).filter(
                        pred,
                    ).map_values(f),
                decreases radius + 1 - dx,
            {
                let x = cx + dx;
                let y = cy + dy;
                let ghost k = (dy + radius) * w + (dx + radius);
                proof {
                    assert(k % w == dx + radius && k / w == dy + radius) by (nonlinear_arith)
                        requires
                            k == (dy + radius) * w + (dx + radius),
                            0 <= dx + radius < w,
                            0 <= dy + radius,
                    ;
                    assert(0 <= k < w * w) by (nonlinear_arith)
                        requires
                            k == (dy + radius) * w + (dx + radius),
                            0 <= dx + radius < w,
                            0 <= dy + radius < w,
                    ;
                    assert(cells[k] == (x as int, y as int));
                    reveal_with_fuel(Seq::<_>::filter, 1);
                    assert(cells.take(k + 1).drop_last() =~= cells.take(k));
                }
                let ghost before = r@;
                if let Some(t) = self.get_tile(x, y) {
                    r.push((x, y, t));
                    proof {
                        assert(r@ == before.push((x, y, t)));
                        assert(r@.map_values(g) =~= before.map_values(g).push(g((x, y, t))));
                    }
                }
                proof {
                    assert(cells.take(k + 1).filter(pred) == (if pred(cells[k]) {
                        cells.take(k).filter(pred).push(cells[k])
                    } else {
                        cells.take(k).filter(pred)
                    }));
                    assert(r@.map_values(g) =~= cells.take(k + 1).filter(pred).map_values(f));
                }
                dx = dx + 1;
                assert(r@.map_values(g) =~= cells.take((dy + radius) * w + (dx + radius)).filter(
                    pred,
                ).map_values(f));
            }
            assert((dy + radius) * w + (dx + radius) == (dy + 1 + radius) * w) by (nonlinear_arith)
                requires
                    dx == radius + 1,
                    w == 2 * radius + 1,
            ;
            dy = dy + 1;
        }
        assert((dy + radius) * w == w * w) by (nonlinear_arith)
            requires
                dy == radius + 1,
                w == 2 * radius + 1,
        ;
        assert(cells.take(w * w) =~= cells);
        r
    }

    pub fn width(&self) -> (r: i32)
        ensures
            r == SUBWORLD_SIZE,
    {
        SUBWORLD_SIZE
    }

    pub fn height(&self) -> (r: i32)
        ensures
            r == SUBWORLD_SIZE,
    {
        SUBWORLD_SIZE
    }
}

} // verus!
