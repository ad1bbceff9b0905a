use rand::Rng;
use rand::SeedableRng;
use vstd::prelude::*;
use vstd::string::*;

use crate::entity::{Entity, EntityManager, EntityType};
use crate::item::{GroundItem, ItemManager, ItemType};
use crate::map::{cell_index, fresh_tile, in_bounds_spec, GameMap};
use crate::tile::{lemma_new_tile_properties, Tile, TileType};
use crate::types::{Coord, SUBWORLD_SIZE};

verus! {

/// Smallest side of a room.
pub const MIN_ROOM_SIZE: i32 = 4;

/// Largest side of a room.
pub const MAX_ROOM_SIZE: i32 = 10;

/// Fewest rooms a sub-world aims for.
pub const MIN_ROOMS: usize = 8;

/// Most rooms a sub-world aims for.
pub const MAX_ROOMS: usize = 16;

/// How many room placements are tried.
pub const MAX_ATTEMPTS: usize = 200;

#[verifier::external_type_specification]
#[verifier::external_body]
pub struct ExStdRng(rand::rngs::StdRng);

/// A seeded generator together with what is known of its state: the seed it was made
/// from and the draws made on it so far, in order, each as (kind, first bound, second
/// bound) with kind 0 for an i32 range, 1 for a usize range and 2 for a ratio.
pub struct WorldRng {
    rng: rand::rngs::StdRng,
    seed: Ghost<u64>,
    draws: Ghost<Seq<(int, int, int)>>,
}

impl View for WorldRng {
    type V = (u64, Seq<(int, int, int)>);

    closed spec fn view(&self) -> (u64, Seq<(int, int, int)>) {
        (self.seed@, self.draws@)
    }
}

/// The value `gen_range(lo..=hi)` on i32 gives on a `StdRng` seeded from `state.0` once
/// the draws `state.1` have been made on it.
pub uninterp spec fn stream_i32(state: (u64, Seq<(int, int, int)>), lo: int, hi: int) -> int;

/// The value `gen_range(lo..=hi)` on usize gives on a `StdRng` seeded from `state.0` once
/// the draws `state.1` have been made on it.
pub uninterp spec fn stream_usize(state: (u64, Seq<(int, int, int)>), lo: int, hi: int) -> int;

/// The answer `gen_ratio(numerator, denominator)` gives on a `StdRng` seeded from
/// `state.0` once the draws `state.1` have been made on it.
pub uninterp spec fn stream_ratio(
    state: (u64, Seq<(int, int, int)>),
    numerator: int,
    denominator: int,
) -> bool;

/// A generator seeded from `seed`, with no draws made yet.
///
/// Calls `rand::SeedableRng::seed_from_u64` for `rand::rngs::StdRng`
/// (rand_core's `seed_from_u64`), which cannot fail. The contract records the seed.
#[verifier::external_body]
fn seeded_rng(seed: u64) -> (r: WorldRng)
    ensures
        r@ == (seed, Seq::<(int, int, int)>::empty()),
{
    WorldRng {
        rng: rand::rngs::StdRng::seed_from_u64(seed),
        seed: Ghost(seed),
        draws: Ghost(Seq::empty()),
    }
}

/// A draw from `lo..=hi` of i32.
///
/// Calls `rand::Rng::gen_range(lo..=hi)` on the generator. rand documents that the value
/// lies in the range and panics on an empty one, which `requires` rules out. `StdRng` is a
/// deterministic generator and the sampling depends only on its state and the range, so
/// the value is a function of the seed and of the draws made before: `stream_i32` names
/// it. A draw from the half-open `lo..hi` is the same draw as from `lo..=hi - 1` in rand's
/// source (`UniformInt::sample_single`), so callers use this for both.
#[verifier::external_body]
fn draw_i32(rng: &mut WorldRng, lo: i32, hi: i32) -> (r: i32)
    requires
        lo <= hi,
    ensures
        lo <= r <= hi,
        r == stream_i32(old(rng)@, lo as int, hi as int),
        final(rng)@ == (old(rng)@.0, old(rng)@.1.push((0int, lo as int, hi as int))),
{
    let r = rng.rng.gen_range(lo..=hi);
    rng.draws = Ghost(rng.draws@.push((0int, lo as int, hi as int)));
    r
}

/// A draw from `lo..=hi` of usize.
///
/// Calls `rand::Rng::gen_range(lo..=hi)` on the generator; the value lies in the range,
/// as rand documents, and is a function of the seed and of the draws made before
/// (`stream_usize`), as for `draw_i32`.
#[verifier::external_body]
fn draw_usize(rng: &mut WorldRng, lo: usize, hi: usize) -> (r: usize)
    requires
        lo <= hi,
    ensures
        lo <= r <= hi,
        r == stream_usize(old(rng)@, lo as int, hi as int),
        final(rng)@ == (old(rng)@.0, old(rng)@.1.push((1int, lo as int, hi as int))),
{
    let r = rng.rng.gen_range(lo..=hi);
    rng.draws = Ghost(rng.draws@.push((1int, lo as int, hi as int)));
    r
}

/// True with probability `numerator / denominator`.
///
/// Calls `rand::Rng::gen_ratio`, which panics when the denominator is zero or below the
/// numerator (ruled out by `requires`) and, as rand documents, always answers false for a
/// zero numerator and true for a numerator equal to the denominator. The answer is a
/// function of the seed and of the draws made before (`stream_ratio`). For 1/2 and 2/5 it
/// builds the same Bernoulli threshold as `gen_bool(0.5)` and `gen_bool(0.4)`.
#[verifier::external_body]
fn draw_ratio(rng: &mut WorldRng, numerator: u32, denominator: u32) -> (r: bool)
    requires
        0 < denominator,
        numerator <= denominator,
    ensures
        numerator == 0 ==> !r,
        numerator == denominator ==> r,
        r == stream_ratio(old(rng)@, numerator as int, denominator as int),
        final(rng)@ == (old(rng)@.0, old(rng)@.1.push((2int, numerator as int, denominator as int))),
{
    let r = rng.rng.gen_ratio(numerator, denominator);
    rng.draws = Ghost(rng.draws@.push((2int, numerator as int, denominator as int)));
    r
}

/// Cells outside the square [2, 509) of the map are the same in both maps.
pub open spec fn border_kept(before: GameMap, after: GameMap) -> bool {
    forall|px: int, py: int|
        in_bounds_spec(px, py) && !(2 <= px < 509 && 2 <= py < 509) ==> #[trigger] after.tile_at(
            px,
            py,
        ) == before.tile_at(px, py)
}

/// A position strictly inside the generation area.
pub open spec fn inner(c: Coord) -> bool {
    2 <= c.x < 510 && 2 <= c.y < 510
}

/// The name, kind and hit points of the monster behind each of the four draws.
pub open spec fn monster_kind(k: int) -> (Seq<char>, EntityType, i32) {
    if k == 0 {
        ("Zombie"@, EntityType::Zombie, 15)
    } else if k == 1 {
        ("Skeleton"@, EntityType::Skeleton, 12)
    } else if k == 2 {
        ("Goblin"@, EntityType::Goblin, 8)
    } else {
        ("Rat"@, EntityType::Rat, 4)
    }
}

/// A monster worldgen may place: one of the four kinds, at full health, inside the area.
pub open spec fn generated_monster(e: Entity) -> bool {
    &&& exists|k: int|
        0 <= k < 4 && e.name@ == monster_kind(k).0 && e.entity_type == monster_kind(k).1
            && e.hp == monster_kind(k).2
    &&& e.max_hp == e.hp
    &&& inner(e.pos)
}

/// A room rectangle (x, y, w, h) as worldgen places it.
pub open spec fn room_ok(r: (i32, i32, i32, i32)) -> bool {
    &&& MIN_ROOM_SIZE <= r.2 <= MAX_ROOM_SIZE
    &&& MIN_ROOM_SIZE <= r.3 <= MAX_ROOM_SIZE
    &&& 2 <= r.0
    &&& r.0 + r.2 <= 509
    &&& 2 <= r.1
    &&& r.1 + r.3 <= 509
}

/// The centre of a room.
pub open spec fn room_center(r: (i32, i32, i32, i32)) -> Coord {
    Coord { x: (r.0 + r.2 / 2) as i32, y: (r.1 + r.3 / 2) as i32 }
}

/// Dig a horizontal corridor on row `y` between `x1` and `x2`: every impassable cell
/// there becomes floor.
fn carve_h_corridor(map: &mut GameMap, x1: i32, x2: i32, y: i32)
    requires
        old(map).wf(),
    ensures
        final(map).wf(),
        final(map).explored_view() == old(map).explored_view(),
        forall|px: int, py: int|
            in_bounds_spec(px, py) ==> #[trigger] final(map).tile_at(px, py) == (if py == y && (
            if x1 <= x2 {
                x1 <= px <= x2
            } else {
                x2 <= px <= x1
            }) && !old(map).tile_at(px, py).passable_spec() {
                fresh_tile(TileType::Floor)
            } else {
                old(map).tile_at(px, py)
            }),
{
    let start = if x1 <= x2 {
        x1
    } else {
        x2
    };
    let end = if x1 <= x2 {
        x2
    } else {
        x1
    };
    let mut x: i64 = start as i64;
    while x <= end as i64
        invariant
            map.wf(),
            start <= x,
            x <= end + 1,
            start == (if x1 <= x2 {
                x1
            } else {
                x2
            }),
            end == (if x1 <= x2 {
                x2
            } else {
                x1
            }),
            map.explored_view() == old(map).explored_view(),
            forall|px: int, py: int|
                in_bounds_spec(px, py) ==> #[trigger] map.tile_at(px, py) == (if py == y && start
                    <= px < x && !old(map).tile_at(px, py).passable_spec() {
                    fresh_tile(TileType::Floor)
                } else {
                    old(map).tile_at(px, py)
                }),
        decreases end + 1 - x,
    {
        let xi = x as i32;
        if map.in_bounds(xi, y) && !map.is_passable(xi, y) {
            let ghost before = *map;
            map.set_tile(xi, y, Tile::new(TileType::Floor));
            proof {
                assert forall|px: int, py: int| in_bounds_spec(px, py) implies #[trigger] map.tile_at(
                    px,
                    py,
                ) == (if py == y && start <= px < x + 1 && !old(map).tile_at(px, py).passable_spec() {
                    fresh_tile(TileType::Floor)
                } else {
                    old(map).tile_at(px, py)
                }) by {
                    crate::map::lemma_cell_index_bounds(px, py);
                    crate::map::lemma_cell_index_bounds(x as int, y as int);
                    if crate::map::cell_index(px, py) == crate::map::cell_index(x as int, y as int) {
                        crate::map::lemma_cell_index_injective(px, py, x as int, y as int);
                    }
                    assert(before.tile_at(px, py) == before.tiles_view()[crate::map::cell_index(px, py)]);
                }
            }
        } else {
            proof {
                assert forall|px: int, py: int| in_bounds_spec(px, py) implies #[trigger] map.tile_at(
                    px,
                    py,
                ) == (if py == y && start <= px < x + 1 && !old(map).tile_at(px, py).passable_spec() {
                    fresh_tile(TileType::Floor)
                } else {
                    old(map).tile_at(px, py)
                }) by {
                    if py == y && px == x {
                        assert(map.tile_at(px, py) == old(map).tile_at(px, py));
                    }
                }
            }
        }
        x = x + 1;
    }
}

/// Dig a vertical corridor on column `x` between `y1` and `y2`: every impassable cell
/// there becomes floor.
fn carve_v_corridor(map: &mut GameMap, y1: i32, y2: i32, x: i32)
    requires
        old(map).wf(),
    ensures
        final(map).wf(),
        final(map).explored_view() == old(map).explored_view(),
        forall|px: int, py: int|
            in_bounds_spec(px, py) ==> #[trigger] final(map).tile_at(px, py) == (if px == x && (
            if y1 <= y2 {
                y1 <= py <= y2
            } else {
                y2 <= py <= y1
            }) && !old(map).tile_at(px, py).passable_spec() {
                fresh_tile(TileType::Floor)
            } else {
                old(map).tile_at(px, py)
            }),
{
    let start = if y1 <= y2 {
        y1
    } else {
        y2
    };
    let end = if y1 <= y2 {
        y2
    } else {
        y1
    };
    let mut y: i64 = start as i64;
    while y <= end as i64
        invariant
            map.wf(),
            start <= y,
            y <= end + 1,
            start == (if y1 <= y2 {
                y1
            } else {
                y2
            }),
            end == (if y1 <= y2 {
                y2
            } else {
                y1
            }),
            map.explored_view() == old(map).explored_view(),
            forall|px: int, py: int|
                in_bounds_spec(px, py) ==> #[trigger] map.tile_at(px, py) == (if px == x && start
                    <= py < y && !old(map).tile_at(px, py).passable_spec() {
                    fresh_tile(TileType::Floor)
                } else {
                    old(map).tile_at(px, py)
                }),
        decreases end + 1 - y,
    {
        let yi = y as i32;
        if map.in_bounds(x, yi) && !map.is_passable(x, yi) {
            let ghost before = *map;
            map.set_tile(x, yi, Tile::new(TileType::Floor));
            proof {
                assert forall|px: int, py: int| in_bounds_spec(px, py) implies #[trigger] map.tile_at(
                    px,
                    py,
                ) == (if px == x && start <= py < y + 1 && !old(map).tile_at(px, py).passable_spec() {
                    fresh_tile(TileType::Floor)
                } else {
                    old(map).tile_at(px, py)
                }) by {
                    crate::map::lemma_cell_index_bounds(px, py);
                    crate::map::lemma_cell_index_bounds(x as int, y as int);
                    if crate::map::cell_index(px, py) == crate::map::cell_index(x as int, y as int) {
                        crate::map::lemma_cell_index_injective(px, py, x as int, y as int);
                    }
                    assert(before.tile_at(px, py) == before.tiles_view()[crate::map::cell_index(px, py)]);
                }
            }
        } else {
            proof {
                assert forall|px: int, py: int| in_bounds_spec(px, py) implies #[trigger] map.tile_at(
                    px,
                    py,
                ) == (if px == x && start <= py < y + 1 && !old(map).tile_at(px, py).passable_spec() {
                    fresh_tile(TileType::Floor)
                } else {
                    old(map).tile_at(px, py)
                }) by {
                    if px == x && py == y {
                        assert(map.tile_at(px, py) == old(map).tile_at(px, py));
                    }
                }
            }
        }
        y = y + 1;
    }
}


/// Cell (px, py) lies in room `r`.
pub open spec fn in_room(r: (i32, i32, i32, i32), px: int, py: int) -> bool {
    r.0 <= px < r.0 + r.2 && r.1 <= py < r.1 + r.3
}

/// Cell (px, py) lies in one of `rooms`.
pub open spec fn in_some_room(rooms: Seq<(i32, i32, i32, i32)>, px: int, py: int) -> bool {
    exists|k: int| 0 <= k < rooms.len() && #[trigger] in_room(rooms[k], px, py)
}

/// The tile of `base` at (px, py) once `rooms` are filled with floor.
pub open spec fn roomed_tile(base: GameMap, rooms: Seq<(i32, i32, i32, i32)>, px: int, py: int) -> Tile {
    if in_some_room(rooms, px, py) {
        fresh_tile(TileType::Floor)
    } else {
        base.tile_at(px, py)
    }
}

/// Every cell of every room is floor.
pub open spec fn rooms_floored(map: GameMap, rooms: Seq<(i32, i32, i32, i32)>) -> bool {
    forall|k: int, px: int, py: int|
        #![trigger rooms[k], map.tile_at(px, py)]
        0 <= k < rooms.len() && in_bounds_spec(px, py) && in_room(rooms[k], px, py) ==> map.tile_at(
            px,
            py,
        ) == fresh_tile(TileType::Floor)
}

/// Every cell of every room is walkable or a closed door.
pub open spec fn rooms_open(map: GameMap, rooms: Seq<(i32, i32, i32, i32)>) -> bool {
    forall|k: int, px: int, py: int|
        #![trigger rooms[k], map.tile_at(px, py)]
        0 <= k < rooms.len() && in_bounds_spec(px, py) && in_room(rooms[k], px, py) ==> open_or_door(
            map.tile_at(px, py),
        )
}

/// Two room rectangles come within two cells of each other.
pub open spec fn rooms_collide(a: (i32, i32, i32, i32), b: (i32, i32, i32, i32)) -> bool {
    a.0 < b.0 + b.2 + 2 && a.0 + a.2 + 2 > b.0 && a.1 < b.1 + b.3 + 2 && a.1 + a.3 + 2 > b.1
}

/// The rooms placed so far: each well inside the map and no two within two cells.
pub open spec fn rooms_ok(rooms: Seq<(i32, i32, i32, i32)>) -> bool {
    &&& forall|i: int| 0 <= i < rooms.len() ==> room_ok(#[trigger] rooms[i])
    &&& forall|i: int, j: int| 0 <= i < j < rooms.len() ==> !rooms_collide(rooms[j], rooms[i])
}

proof fn lemma_border_trans(a: GameMap, b: GameMap, c: GameMap)
    requires
        border_kept(a, b),
        border_kept(b, c),
    ensures
        border_kept(a, c),
{
}

fn collides_any(rooms: &Vec<(i32, i32, i32, i32)>, cand: (i32, i32, i32, i32)) -> (r: bool)
    requires
        forall|i: int| 0 <= i < rooms@.len() ==> room_ok(#[trigger] rooms@[i]),
        room_ok(cand),
    ensures
        r == exists|i: int| 0 <= i < rooms@.len() && rooms_collide(cand, #[trigger] rooms@[i]),
{
    let mut i: usize = 0;
    while i < rooms.len()
        invariant
            i <= rooms@.len(),
            room_ok(cand),
            forall|k: int| 0 <= k < rooms@.len() ==> room_ok(#[trigger] rooms@[k]),
            forall|k: int| 0 <= k < i ==> !rooms_collide(cand, #[trigger] rooms@[k]),
        decreases rooms@.len() - i,
    {
        let (rx, ry, rw, rh) = rooms[i];
        assert(room_ok(rooms@[i as int]));
        if cand.0 < rx + rw + 2 && cand.0 + cand.2 + 2 > rx && cand.1 < ry + rh + 2 && cand.1
            + cand.3 + 2 > ry {
            return true;
        }
        i = i + 1;
    }
    false
}

/// Candidate room `cand` comes within two cells of one of `rooms`.
pub open spec fn collides_with(rooms: Seq<(i32, i32, i32, i32)>, cand: (i32, i32, i32, i32)) -> bool {
    exists|i: int| 0 <= i < rooms.len() && rooms_collide(cand, #[trigger] rooms[i])
}

/// The rooms kept from the candidates `cands`, tried in order: each is kept unless it
/// comes within two cells of a room kept before it.
pub open spec fn accepted(cands: Seq<(i32, i32, i32, i32)>) -> Seq<(i32, i32, i32, i32)>
    decreases cands.len(),
{
    if cands.len() == 0 {
        Seq::empty()
    } else {
        let prev = accepted(cands.drop_last());
        if collides_with(prev, cands.last()) {
            prev
        } else {
            prev.push(cands.last())
        }
    }
}

/// A room candidate as drawn: width and height from 4 to 10, corner from 2 up to the
/// map size less the extent less 3.
pub open spec fn drawn_room(c: (i32, i32, i32, i32)) -> bool {
    &&& MIN_ROOM_SIZE <= c.2 <= MAX_ROOM_SIZE
    &&& MIN_ROOM_SIZE <= c.3 <= MAX_ROOM_SIZE
    &&& 2 <= c.0 <= SUBWORLD_SIZE - c.2 - 3
    &&& 2 <= c.1 <= SUBWORLD_SIZE - c.3 - 3
}

/// `rooms` is what placing draws: a target count `num` from 8 to 16, then candidates
/// `cands`, one per attempt, kept as `accepted` says, with attempts going on while fewer
/// than `num` rooms are kept and fewer than 200 attempts are made.
pub open spec fn placement(
    rooms: Seq<(i32, i32, i32, i32)>,
    cands: Seq<(i32, i32, i32, i32)>,
    num: int,
) -> bool {
    &&& MIN_ROOMS <= num <= MAX_ROOMS
    &&& 1 <= cands.len() <= MAX_ATTEMPTS
    &&& forall|i: int| 0 <= i < cands.len() ==> drawn_room(#[trigger] cands[i])
    &&& rooms == accepted(cands)
    &&& forall|k: int| 0 <= k < cands.len() ==> #[trigger] accepted(cands.take(k)).len() < num
    &&& rooms.len() == num || cands.len() == MAX_ATTEMPTS
}

/// The first `n` room candidates the generator of seed `seed` draws once the draws `d`
/// are made (each: width, height, then the corner's x and y), with the draws made after
/// them.
pub open spec fn cand_draws(seed: u64, d: Seq<(int, int, int)>, n: nat) -> (
    Seq<(i32, i32, i32, i32)>,
    Seq<(int, int, int)>,
)
    decreases n,
{
    if n == 0 {
        (Seq::empty(), d)
    } else {
        let prev = cand_draws(seed, d, (n - 1) as nat);
        let d0 = prev.1;
        let w = stream_i32((seed, d0), 4, 10);
        let d1 = d0.push((0, 4, 10));
        let h = stream_i32((seed, d1), 4, 10);
        let d2 = d1.push((0, 4, 10));
        let x = stream_i32((seed, d2), 2, 509 - w);
        let d3 = d2.push((0, 2, 509 - w));
        let y = stream_i32((seed, d3), 2, 509 - h);
        let d4 = d3.push((0, 2, 509 - h));
        (prev.0.push((x as i32, y as i32, w as i32, h as i32)), d4)
    }
}

/// The room count target and the candidates are those the generator in state `before`
/// draws, leaving it in state `after`.
pub open spec fn placement_drawn(
    cands: Seq<(i32, i32, i32, i32)>,
    num: int,
    before: (u64, Seq<(int, int, int)>),
    after: (u64, Seq<(int, int, int)>),
) -> bool {
    let d1 = before.1.push((1, MIN_ROOMS as int, MAX_ROOMS as int));
    &&& num == stream_usize(before, MIN_ROOMS as int, MAX_ROOMS as int)
    &&& cands == cand_draws(before.0, d1, cands.len()).0
    &&& after == (before.0, cand_draws(before.0, d1, cands.len()).1)
}

/// Place between 1 and 16 non-touching rooms of floor.
fn place_rooms(map: &mut GameMap, rng: &mut WorldRng) -> (rooms: Vec<
    (i32, i32, i32, i32),
>)
    requires
        old(map).wf(),
    ensures
        final(map).wf(),
        final(map).explored_view() == old(map).explored_view(),
        border_kept(*old(map), *final(map)),
        rooms_ok(rooms@),
        1 <= rooms@.len() <= MAX_ROOMS,
        rooms_floored(*final(map), rooms@),
        forall|px: int, py: int|
            in_bounds_spec(px, py) ==> #[trigger] final(map).tile_at(px, py) == roomed_tile(
                *old(map),
                rooms@,
                px,
                py,
            ),
        exists|cands: Seq<(i32, i32, i32, i32)>, num: int|
            #[trigger] placement(rooms@, cands, num) && placement_drawn(cands, num, old(rng)@, final(rng)@),
{
    let num_rooms = draw_usize(rng, MIN_ROOMS, MAX_ROOMS);
    let mut rooms: Vec<(i32, i32, i32, i32)> = Vec::new();
    let mut attempt: usize = 0;
    let ghost mut cands: Seq<(i32, i32, i32, i32)> = Seq::empty();
    while attempt < MAX_ATTEMPTS && rooms.len() < num_rooms
        invariant
            cands.len() == attempt,
            num_rooms == stream_usize(old(rng)@, MIN_ROOMS as int, MAX_ROOMS as int),
            cands == cand_draws(old(rng)@.0, old(rng)@.1.push((1, MIN_ROOMS as int, MAX_ROOMS as int)), cands.len()).0,
            rng@ == (old(rng)@.0, cand_draws(old(rng)@.0, old(rng)@.1.push((1, MIN_ROOMS as int, MAX_ROOMS as int)), cands.len()).1),
            forall|i: int| 0 <= i < cands.len() ==> drawn_room(#[trigger] cands[i]),
            rooms@ == accepted(cands),
            forall|k: int| 0 <= k < cands.len() ==> #[trigger] accepted(cands.take(k)).len() < num_rooms,
            map.wf(),
            map.explored_view() == old(map).explored_view(),
            border_kept(*old(map), *map),
            rooms_ok(rooms@),
            rooms@.len() <= num_rooms <= MAX_ROOMS,
            MIN_ROOMS <= num_rooms,
            attempt <= MAX_ATTEMPTS,
            attempt > 0 ==> rooms@.len() >= 1,
            rooms_floored(*map, rooms@),
            forall|px: int, py: int|
                in_bounds_spec(px, py) ==> #[trigger] map.tile_at(px, py) == roomed_tile(
                    *old(map),
                    rooms@,
                    px,
                    py,
                ),
        decreases MAX_ATTEMPTS - attempt,
    {
        let w = draw_i32(rng, MIN_ROOM_SIZE, MAX_ROOM_SIZE);
        let h = draw_i32(rng, MIN_ROOM_SIZE, MAX_ROOM_SIZE);
        let x = draw_i32(rng, 2, SUBWORLD_SIZE - w - 3);
        let y = draw_i32(rng, 2, SUBWORLD_SIZE - h - 3);
        let cand = (x, y, w, h);
        let ghost rooms0 = rooms@;
        let ghost cands2 = cands.push(cand);
        proof {
            assert(cands2.drop_last() =~= cands);
            assert(cands2.last() == cand);
            assert forall|k: int| 0 <= k < cands2.len() implies #[trigger] accepted(cands2.take(k)).len()
                < num_rooms by {
                if k < cands.len() {
                    assert(cands2.take(k) =~= cands.take(k));
                } else {
                    assert(cands2.take(k) =~= cands);
                }
            }
        }
        if !collides_any(&rooms, cand) {
            let ghost before = *map;
            map.fill_rect(x, y, w, h, TileType::Floor);
            let ghost old_rooms = rooms@;
            rooms.push(cand);
            proof {
                assert forall|i: int, j: int| 0 <= i < j < rooms@.len() implies !rooms_collide(
                    rooms@[j],
                    rooms@[i],
                ) by {
                    if j == old_rooms.len() {
                        assert(rooms@[i] == old_rooms[i]);
                    } else {
                        assert(rooms@[i] == old_rooms[i] && rooms@[j] == old_rooms[j]);
                    }
                }
                assert forall|i: int| 0 <= i < rooms@.len() implies room_ok(#[trigger] rooms@[i]) by {
                    if i < old_rooms.len() {
                        assert(rooms@[i] == old_rooms[i]);
                    }
                }
                assert(border_kept(before, *map));
                lemma_border_trans(*old(map), before, *map);
                assert forall|k: int, px: int, py: int|
                    #![trigger rooms@[k], map.tile_at(px, py)]
                    0 <= k < rooms@.len() && in_bounds_spec(px, py) && in_room(rooms@[k], px, py)
                        implies map.tile_at(px, py) == fresh_tile(TileType::Floor) by {
                    if k < old_rooms.len() {
                        assert(rooms@[k] == old_rooms[k]);
                        assert(before.tile_at(px, py) == fresh_tile(TileType::Floor));
                    }
                }
                assert(rooms@ =~= rooms0.push(cand));
                assert forall|px: int, py: int| in_bounds_spec(px, py) implies #[trigger] map.tile_at(
                    px,
                    py,
                ) == roomed_tile(*old(map), rooms@, px, py) by {
                    assert(before.tile_at(px, py) == roomed_tile(*old(map), old_rooms, px, py));
                    if in_room(cand, px, py) {
                        assert(rooms@[old_rooms.len() as int] == cand);
                        assert(in_some_room(rooms@, px, py));
                    } else if in_some_room(old_rooms, px, py) {
                        let k = choose|k: int| 0 <= k < old_rooms.len() && #[trigger] in_room(old_rooms[k], px, py);
                        assert(rooms@[k] == old_rooms[k]);
                        assert(in_some_room(rooms@, px, py));
                    } else {
                        assert forall|k: int| 0 <= k < rooms@.len() implies !#[trigger] in_room(rooms@[k], px, py) by {
                            if k < old_rooms.len() {
                                assert(rooms@[k] == old_rooms[k]);
                            }
                        }
                    }
                }
            }
        }
        proof {
            assert(accepted(cands2) == rooms@);
            cands = cands2;
        }
        attempt = attempt + 1;
    }
    proof {
        assert(placement(rooms@, cands, num_rooms as int));
        assert(placement_drawn(cands, num_rooms as int, old(rng)@, rng@));
    }
    rooms
}

/// A tile a corridor leaves walkable, or a closed door set across a corridor.
pub open spec fn open_or_door(t: Tile) -> bool {
    t.passable_spec() || t == fresh_tile(TileType::Door { open: false })
}

/// `v` lies between `a` and `b`, both included.
pub open spec fn between(v: int, a: int, b: int) -> bool {
    if a <= b {
        a <= v <= b
    } else {
        b <= v <= a
    }
}

/// Cell (px, py) lies on the L-shaped corridor from `a` to `b`: along a's row and then
/// b's column when `h_first`, along a's column and then b's row otherwise.
pub open spec fn on_corridor(a: Coord, b: Coord, h_first: bool, px: int, py: int) -> bool {
    if h_first {
        (py == a.y && between(px, a.x as int, b.x as int)) || (px == b.x && between(
            py,
            a.y as int,
            b.y as int,
        ))
    } else {
        (px == a.x && between(py, a.y as int, b.y as int)) || (py == b.y && between(
            px,
            a.x as int,
            b.x as int,
        ))
    }
}

/// Every in-bounds cell of that corridor is walkable or a closed door.
pub open spec fn corridor_open(map: GameMap, a: Coord, b: Coord, h_first: bool) -> bool {
    forall|px: int, py: int|
        in_bounds_spec(px, py) && on_corridor(a, b, h_first, px, py) ==> open_or_door(
            #[trigger] map.tile_at(px, py),
        )
}

/// The centres of two rooms are joined by one of the two L-shaped corridors.
pub open spec fn rooms_joined(map: GameMap, r1: (i32, i32, i32, i32), r2: (i32, i32, i32, i32)) -> bool {
    corridor_open(map, room_center(r1), room_center(r2), true) || corridor_open(
        map,
        room_center(r1),
        room_center(r2),
        false,
    )
}

/// Going from `before` to `after`, every cell either stays, or becomes fresh floor or a
/// fresh closed door, and a walkable-or-door cell stays walkable-or-door.
pub open spec fn digs_only(before: GameMap, after: GameMap) -> bool {
    forall|px: int, py: int|
        in_bounds_spec(px, py) ==> {
            &&& (#[trigger] after.tile_at(px, py) == before.tile_at(px, py) || after.tile_at(px, py)
                == fresh_tile(TileType::Floor) || after.tile_at(px, py) == fresh_tile(
                TileType::Door { open: false },
            ))
            &&& (open_or_door(before.tile_at(px, py)) ==> open_or_door(after.tile_at(px, py)))
        }
}

proof fn lemma_digs_trans(a: GameMap, b: GameMap, c: GameMap)
    requires
        digs_only(a, b),
        digs_only(b, c),
    ensures
        digs_only(a, c),
{
    assert forall|px: int, py: int| in_bounds_spec(px, py) implies {
        &&& (#[trigger] c.tile_at(px, py) == a.tile_at(px, py) || c.tile_at(px, py) == fresh_tile(
            TileType::Floor,
        ) || c.tile_at(px, py) == fresh_tile(TileType::Door { open: false }))
        &&& (open_or_door(a.tile_at(px, py)) ==> open_or_door(c.tile_at(px, py)))
    } by {
        assert(b.tile_at(px, py) == b.tile_at(px, py));
    }
}

/// Every cell walkable or a closed door in `before` is still so in `after`.
pub open spec fn keeps_open(before: GameMap, after: GameMap) -> bool {
    forall|px: int, py: int|
        in_bounds_spec(px, py) && open_or_door(before.tile_at(px, py)) ==> open_or_door(
            #[trigger] after.tile_at(px, py),
        )
}

proof fn lemma_digs_keeps(a: GameMap, b: GameMap)
    requires
        digs_only(a, b),
    ensures
        keeps_open(a, b),
{
}

/// Setting one cell to a walkable tile keeps every walkable-or-door cell so.
proof fn lemma_set_walkable_keeps(before: GameMap, after: GameMap, x: int, y: int, t: Tile)
    requires
        before.wf(),
        in_bounds_spec(x, y),
        after.tiles_view() == before.tiles_view().update(crate::map::cell_index(x, y), t),
        t.passable_spec(),
    ensures
        keeps_open(before, after),
        after.tile_at(x, y) == t,
{
    crate::map::lemma_cell_index_bounds(x, y);
    assert forall|px: int, py: int|
        in_bounds_spec(px, py) && open_or_door(before.tile_at(px, py)) implies open_or_door(
        #[trigger] after.tile_at(px, py),
    ) by {
        crate::map::lemma_cell_index_bounds(px, py);
        if crate::map::cell_index(px, py) != crate::map::cell_index(x, y) {
            assert(after.tile_at(px, py) == before.tile_at(px, py));
        }
    }
}

proof fn lemma_open_keep_first(m1: GameMap, m2: GameMap, rooms: Seq<(i32, i32, i32, i32)>)
    requires
        keeps_open(m1, m2),
        rooms_open(m1, rooms),
    ensures
        rooms_open(m2, rooms),
{
    assert forall|k: int, px: int, py: int|
        #![trigger rooms[k], m2.tile_at(px, py)]
        0 <= k < rooms.len() && in_bounds_spec(px, py) && in_room(rooms[k], px, py) implies open_or_door(
        m2.tile_at(px, py),
    ) by {
        assert(open_or_door(m1.tile_at(px, py)));
    }
}

proof fn lemma_open_keep(m1: GameMap, m2: GameMap, rooms: Seq<(i32, i32, i32, i32)>)
    requires
        keeps_open(m1, m2),
        rooms_open(m1, rooms),
        forall|k: int| 1 <= k < rooms.len() ==> rooms_joined(m1, rooms[k - 1], #[trigger] rooms[k]),
    ensures
        rooms_open(m2, rooms),
        forall|k: int| 1 <= k < rooms.len() ==> rooms_joined(m2, rooms[k - 1], #[trigger] rooms[k]),
{
    assert forall|k: int, px: int, py: int|
        #![trigger rooms[k], m2.tile_at(px, py)]
        0 <= k < rooms.len() && in_bounds_spec(px, py) && in_room(rooms[k], px, py) implies open_or_door(
        m2.tile_at(px, py),
    ) by {
        assert(open_or_door(m1.tile_at(px, py)));
    }
    assert forall|k: int| 1 <= k < rooms.len() implies rooms_joined(m2, rooms[k - 1], #[trigger] rooms[k]) by {
        lemma_joined_keep(m1, m2, rooms[k - 1], rooms[k]);
    }
}

proof fn lemma_joined_keep(m1: GameMap, m2: GameMap, r1: (i32, i32, i32, i32), r2: (i32, i32, i32, i32))
    requires
        keeps_open(m1, m2),
        rooms_joined(m1, r1, r2),
    ensures
        rooms_joined(m2, r1, r2),
{
    let a = room_center(r1);
    let b = room_center(r2);
    let hf = corridor_open(m1, a, b, true);
    assert forall|px: int, py: int|
        in_bounds_spec(px, py) && on_corridor(a, b, hf, px, py) implies open_or_door(
        #[trigger] m2.tile_at(px, py),
    ) by {
        assert(open_or_door(m1.tile_at(px, py)));
    }
    assert(corridor_open(m2, a, b, hf));
}

/// Digging a row segment, as `carve_h_corridor` does, only digs, and leaves every cell of
/// the segment walkable.
proof fn lemma_dig_row(before: GameMap, after: GameMap, x1: int, x2: int, y: int)
    requires
        forall|px: int, py: int|
            in_bounds_spec(px, py) ==> #[trigger] after.tile_at(px, py) == (if py == y && between(
                px,
                x1,
                x2,
            ) && !before.tile_at(px, py).passable_spec() {
                fresh_tile(TileType::Floor)
            } else {
                before.tile_at(px, py)
            }),
    ensures
        digs_only(before, after),
        forall|px: int, py: int|
            in_bounds_spec(px, py) && py == y && between(px, x1, x2) ==> #[trigger] after.tile_at(
                px,
                py,
            ).passable_spec(),
{
    lemma_new_tile_properties(TileType::Floor);
    lemma_new_tile_properties(TileType::Door { open: false });
}

/// Digging a column segment, as `carve_v_corridor` does, only digs, and leaves every cell
/// of the segment walkable.
proof fn lemma_dig_col(before: GameMap, after: GameMap, y1: int, y2: int, x: int)
    requires
        forall|px: int, py: int|
            in_bounds_spec(px, py) ==> #[trigger] after.tile_at(px, py) == (if px == x && between(
                py,
                y1,
                y2,
            ) && !before.tile_at(px, py).passable_spec() {
                fresh_tile(TileType::Floor)
            } else {
                before.tile_at(px, py)
            }),
    ensures
        digs_only(before, after),
        forall|px: int, py: int|
            in_bounds_spec(px, py) && px == x && between(py, y1, y2) ==> #[trigger] after.tile_at(
                px,
                py,
            ).passable_spec(),
{
    lemma_new_tile_properties(TileType::Floor);
    lemma_new_tile_properties(TileType::Door { open: false });
}

/// What one join draws from generator state `st`: whether the corridor runs along the
/// row first (a 1/2 ratio), whether a door is tried (a 2/5 ratio) and, if so, its offsets
/// from the earlier centre (two draws from -1..=1), with the state after these draws.
pub open spec fn join_draws(st: (u64, Seq<(int, int, int)>)) -> (bool, bool, int, int, (
    u64,
    Seq<(int, int, int)>,
)) {
    let h_first = stream_ratio(st, 1, 2);
    let s1 = (st.0, st.1.push((2int, 1int, 2int)));
    let door = stream_ratio(s1, 2, 5);
    let s2 = (s1.0, s1.1.push((2int, 2int, 5int)));
    if door {
        let dx = stream_i32(s2, -1, 1);
        let s3 = (s2.0, s2.1.push((0int, -1int, 1int)));
        let dy = stream_i32(s3, -1, 1);
        (h_first, true, dx, dy, (s3.0, s3.1.push((0int, -1int, 1int))))
    } else {
        (h_first, false, 0, 0, s2)
    }
}

/// The generator state after `k` joins from `st`.
pub open spec fn join_state(st: (u64, Seq<(int, int, int)>), k: nat) -> (u64, Seq<(int, int, int)>)
    decreases k,
{
    if k == 0 {
        st
    } else {
        join_draws(join_state(st, (k - 1) as nat)).4
    }
}

/// `t` after carving a corridor cell: floor when `on` it and not walkable.
pub open spec fn carved(t: Tile, on: bool) -> Tile {
    if on && !t.passable_spec() {
        fresh_tile(TileType::Floor)
    } else {
        t
    }
}

/// The tile `t` of cell (px, py) after carving the L-shaped corridor from `a` to `b`.
pub open spec fn corridor_tile(t: Tile, a: Coord, b: Coord, h_first: bool, px: int, py: int) -> Tile {
    if h_first {
        carved(
            carved(t, py == a.y && between(px, a.x as int, b.x as int)),
            px == b.x && between(py, a.y as int, b.y as int),
        )
    } else {
        carved(
            carved(t, px == a.x && between(py, a.y as int, b.y as int)),
            py == b.y && between(px, a.x as int, b.x as int),
        )
    }
}

/// The tile of cell (px, py) once the first `k` rooms after the first have been joined to
/// the room before each, starting from the tiles `base` with generator state `st`.
pub open spec fn joined_tile(
    base: spec_fn(int, int) -> Tile,
    rooms: Seq<(i32, i32, i32, i32)>,
    st: (u64, Seq<(int, int, int)>),
    k: nat,
    px: int,
    py: int,
) -> Tile
    decreases k,
{
    if k == 0 {
        base(px, py)
    } else {
        let j = (k - 1) as nat;
        let a = room_center(rooms[j as int]);
        let b = room_center(rooms[j + 1int]);
        let d = join_draws(join_state(st, j));
        let dx = a.x + d.2;
        let dy = a.y + d.3;
        if d.1 && px == dx && py == dy && in_bounds_spec(dx, dy) && corridor_tile(
            joined_tile(base, rooms, st, j, dx, dy),
            a,
            b,
            d.0,
            dx,
            dy,
        ).passable_spec() {
            fresh_tile(TileType::Door { open: false })
        } else {
            corridor_tile(joined_tile(base, rooms, st, j, px, py), a, b, d.0, px, py)
        }
    }
}

/// Every cell of `m` holds the tile `joined_tile` gives after `k` joins.
#[verifier::opaque]
pub open spec fn joined_upto(
    m: GameMap,
    base: spec_fn(int, int) -> Tile,
    rooms: Seq<(i32, i32, i32, i32)>,
    st: (u64, Seq<(int, int, int)>),
    k: nat,
) -> bool {
    forall|px: int, py: int|
        in_bounds_spec(px, py) ==> #[trigger] m.tile_at(px, py) == joined_tile(base, rooms, st, k, px, py)
}

/// One join carried out: from `m0` (the tiles after the joins before) the corridor gave
/// `mc`, and `m` is `mc` with the drawn door set when its cell is on the map and
/// walkable (`door_at`), or `mc` itself otherwise.
proof fn lemma_join_step(
    base: spec_fn(int, int) -> Tile,
    rooms: Seq<(i32, i32, i32, i32)>,
    st: (u64, Seq<(int, int, int)>),
    i: nat,
    m0: GameMap,
    mc: GameMap,
    m: GameMap,
    door_at: Option<(int, int)>,
)
    requires
        1 <= i < rooms.len(),
        joined_upto(m0, base, rooms, st, (i - 1) as nat),
        forall|px: int, py: int|
            in_bounds_spec(px, py) ==> #[trigger] mc.tile_at(px, py) == corridor_tile(
                m0.tile_at(px, py),
                room_center(rooms[i - 1]),
                room_center(rooms[i as int]),
                join_draws(join_state(st, (i - 1) as nat)).0,
                px,
                py,
            ),
        ({
            let jd = join_draws(join_state(st, (i - 1) as nat));
            let dx = room_center(rooms[i - 1]).x + jd.2;
            let dy = room_center(rooms[i - 1]).y + jd.3;
            let fits = jd.1 && in_bounds_spec(dx, dy) && mc.tile_at(dx, dy).passable_spec();
            &&& fits ==> door_at == Some((dx, dy))
            &&& !fits ==> door_at is None
        }),
        door_at is None ==> m == mc,
        door_at matches Some(d) ==> forall|px: int, py: int|
            in_bounds_spec(px, py) ==> #[trigger] m.tile_at(px, py) == (if px == d.0 && py == d.1 {
                fresh_tile(TileType::Door { open: false })
            } else {
                mc.tile_at(px, py)
            }),
    ensures
        joined_upto(m, base, rooms, st, i),
{
    reveal(joined_upto);
    let jd = join_draws(join_state(st, (i - 1) as nat));
    let dx = room_center(rooms[i - 1]).x + jd.2;
    let dy = room_center(rooms[i - 1]).y + jd.3;
    assert forall|px: int, py: int| in_bounds_spec(px, py) implies #[trigger] m.tile_at(px, py)
        == joined_tile(base, rooms, st, i, px, py) by {
        assert(m0.tile_at(px, py) == joined_tile(base, rooms, st, (i - 1) as nat, px, py));
        assert(mc.tile_at(px, py) == corridor_tile(
            m0.tile_at(px, py),
            room_center(rooms[i - 1]),
            room_center(rooms[i as int]),
            jd.0,
            px,
            py,
        ));
        if jd.1 && in_bounds_spec(dx, dy) {
            assert(m0.tile_at(dx, dy) == joined_tile(base, rooms, st, (i - 1) as nat, dx, dy));
            assert(mc.tile_at(dx, dy) == corridor_tile(
                m0.tile_at(dx, dy),
                room_center(rooms[i - 1]),
                room_center(rooms[i as int]),
                jd.0,
                dx,
                dy,
            ));
        }
    }
}

/// How many joins `n` rooms take.
pub open spec fn joins(n: int) -> nat {
    if n > 1 {
        (n - 1) as nat
    } else {
        0
    }
}

/// Joining from tiles that agree on the map gives tiles that agree on the map.
proof fn lemma_joined_agree(
    b1: spec_fn(int, int) -> Tile,
    b2: spec_fn(int, int) -> Tile,
    rooms: Seq<(i32, i32, i32, i32)>,
    st: (u64, Seq<(int, int, int)>),
    k: nat,
)
    requires
        forall|px: int, py: int| in_bounds_spec(px, py) ==> #[trigger] b1(px, py) == b2(px, py),
    ensures
        forall|px: int, py: int|
            in_bounds_spec(px, py) ==> #[trigger] joined_tile(b1, rooms, st, k, px, py) == joined_tile(
                b2,
                rooms,
                st,
                k,
                px,
                py,
            ),
    decreases k,
{
    if k > 0 {
        lemma_joined_agree(b1, b2, rooms, st, (k - 1) as nat);
        let j = (k - 1) as nat;
        let a = room_center(rooms[j as int]);
        let d = join_draws(join_state(st, j));
        let dx = a.x + d.2;
        let dy = a.y + d.3;
        assert forall|px: int, py: int| in_bounds_spec(px, py) implies #[trigger] joined_tile(
            b1,
            rooms,
            st,
            k,
            px,
            py,
        ) == joined_tile(b2, rooms, st, k, px, py) by {
            assert(joined_tile(b1, rooms, st, j, px, py) == joined_tile(b2, rooms, st, j, px, py));
            if in_bounds_spec(dx, dy) {
                assert(joined_tile(b1, rooms, st, j, dx, dy) == joined_tile(b2, rooms, st, j, dx, dy));
            }
        }
    }
}

/// The tiles of `m`, as a function of the cell.
pub open spec fn tile_fn(m: GameMap) -> spec_fn(int, int) -> Tile {
    |x: int, y: int| m.tile_at(x, y)
}

/// The tiles `base` with the cells of `rooms` made floor.
pub open spec fn roomed_fn(base: spec_fn(int, int) -> Tile, rooms: Seq<(i32, i32, i32, i32)>) -> spec_fn(
    int,
    int,
) -> Tile {
    |x: int, y: int|
        if in_some_room(rooms, x, y) {
            fresh_tile(TileType::Floor)
        } else {
            base(x, y)
        }
}

/// Wall everywhere, the tiles of a new map.
pub open spec fn all_walls() -> spec_fn(int, int) -> Tile {
    |x: int, y: int| fresh_tile(TileType::Wall)
}

/// Laying out over tiles that agree on the map gives tiles that agree on the map.
pub proof fn lemma_laid_agree(
    b1: spec_fn(int, int) -> Tile,
    b2: spec_fn(int, int) -> Tile,
    rooms: Seq<(i32, i32, i32, i32)>,
    st: (u64, Seq<(int, int, int)>),
)
    requires
        forall|px: int, py: int| in_bounds_spec(px, py) ==> #[trigger] b1(px, py) == b2(px, py),
    ensures
        forall|px: int, py: int|
            in_bounds_spec(px, py) ==> #[trigger] laid_tile(b1, rooms, st, px, py) == laid_tile(
                b2,
                rooms,
                st,
                px,
                py,
            ),
{
    let r1 = roomed_fn(b1, rooms);
    let r2 = roomed_fn(b2, rooms);
    assert forall|px: int, py: int| in_bounds_spec(px, py) implies #[trigger] r1(px, py) == r2(px, py) by {
        assert(b1(px, py) == b2(px, py));
    }
    lemma_joined_agree(r1, r2, rooms, st, joins(rooms.len() as int));
    assert forall|px: int, py: int| in_bounds_spec(px, py) implies #[trigger] laid_tile(
        b1,
        rooms,
        st,
        px,
        py,
    ) == laid_tile(b2, rooms, st, px, py) by {
        assert(joined_tile(r1, rooms, st, joins(rooms.len() as int), px, py) == joined_tile(
            r2,
            rooms,
            st,
            joins(rooms.len() as int),
            px,
            py,
        ));
    }
}

/// The tiles of the generated map follow `laid_tile`: `m1` is `m0` with the rooms filled,
/// `m2` that after the joins, `m3` that with stairs down at the centre of the first room,
/// and `m` that with stairs up beside the centre of the last one when there are several.
proof fn lemma_laid_out(
    m0: GameMap,
    m1: GameMap,
    m2: GameMap,
    m3: GameMap,
    m: GameMap,
    rooms: Seq<(i32, i32, i32, i32)>,
    st: (u64, Seq<(int, int, int)>),
)
    requires
        1 <= rooms.len(),
        rooms_ok(rooms),
        m2.wf(),
        m3.wf(),
        m.wf(),
        forall|px: int, py: int|
            in_bounds_spec(px, py) ==> #[trigger] m1.tile_at(px, py) == roomed_tile(m0, rooms, px, py),
        joined_upto(m2, tile_fn(m1), rooms, st, joins(rooms.len() as int)),
        m3.tiles_view() == m2.tiles_view().update(
            cell_index(room_center(rooms[0]).x as int, room_center(rooms[0]).y as int),
            fresh_tile(TileType::StairsDown),
        ),
        rooms.len() > 1 ==> m.tiles_view() == m3.tiles_view().update(
            cell_index(room_center(rooms.last()).x + 1, room_center(rooms.last()).y as int),
            fresh_tile(TileType::StairsUp),
        ),
        rooms.len() <= 1 ==> m.tiles_view() == m3.tiles_view(),
    ensures
        forall|px: int, py: int|
            in_bounds_spec(px, py) ==> #[trigger] m.tile_at(px, py) == laid_tile(tile_fn(m0), rooms, st, px, py),
{
    reveal(joined_upto);
    let rb = roomed_fn(tile_fn(m0), rooms);
    assert forall|px: int, py: int| in_bounds_spec(px, py) implies #[trigger] tile_fn(m1)(px, py) == rb(px, py) by {
        assert(m1.tile_at(px, py) == roomed_tile(m0, rooms, px, py));
    }
    lemma_joined_agree(tile_fn(m1), rb, rooms, st, joins(rooms.len() as int));
    let down = room_center(rooms[0]);
    let u = room_center(rooms.last());
    assert(room_ok(rooms[0]));
    assert(room_ok(rooms[rooms.len() - 1]));
    assert forall|px: int, py: int| in_bounds_spec(px, py) implies #[trigger] m.tile_at(px, py) == laid_tile(
        tile_fn(m0),
        rooms,
        st,
        px,
        py,
    ) by {
        assert(m2.tile_at(px, py) == joined_tile(tile_fn(m1), rooms, st, joins(rooms.len() as int), px, py));
        assert(laid_tile(tile_fn(m0), rooms, st, px, py) == (if rooms.len() > 1 && px == u.x + 1 && py == u.y {
            fresh_tile(TileType::StairsUp)
        } else if px == down.x && py == down.y {
            fresh_tile(TileType::StairsDown)
        } else {
            joined_tile(rb, rooms, st, joins(rooms.len() as int), px, py)
        }));
        assert(joined_tile(tile_fn(m1), rooms, st, joins(rooms.len() as int), px, py) == joined_tile(
            rb,
            rooms,
            st,
            joins(rooms.len() as int),
            px,
            py,
        ));
        crate::map::lemma_cell_index_bounds(px, py);
        crate::map::lemma_cell_index_bounds(down.x as int, down.y as int);
        if crate::map::cell_index(px, py) == crate::map::cell_index(down.x as int, down.y as int) {
            crate::map::lemma_cell_index_injective(px, py, down.x as int, down.y as int);
        }
        if rooms.len() > 1 {
            crate::map::lemma_cell_index_bounds(u.x + 1, u.y as int);
            if crate::map::cell_index(px, py) == crate::map::cell_index(u.x + 1, u.y as int) {
                crate::map::lemma_cell_index_injective(px, py, u.x + 1, u.y as int);
            }
        }
    }
}

/// The tile generation leaves at (px, py) of a map whose tiles were `base`, for the rooms
/// `rooms` and the generator state `st` left after placing them: stairs up just right of
/// the centre of the last room (with more than one room), stairs down at the centre of
/// the first, otherwise the rooms' floor with the corridors and doors of the joins.
pub open spec fn laid_tile(
    base: spec_fn(int, int) -> Tile,
    rooms: Seq<(i32, i32, i32, i32)>,
    st: (u64, Seq<(int, int, int)>),
    px: int,
    py: int,
) -> Tile {
    let up = room_center(rooms.last());
    let down = room_center(rooms[0]);
    if rooms.len() > 1 && px == up.x + 1 && py == up.y {
        fresh_tile(TileType::StairsUp)
    } else if px == down.x && py == down.y {
        fresh_tile(TileType::StairsDown)
    } else {
        joined_tile(roomed_fn(base, rooms), rooms, st, joins(rooms.len() as int), px, py)
    }
}

/// Join each room to the one before it by an L-shaped corridor between their centres,
/// sometimes closing a door next to the earlier centre. Every cell of each corridor ends
/// walkable or a closed door; nothing else is set but floor and closed doors, and no
/// walkable cell is walled up.
#[verifier::spinoff_prover]
#[verifier::rlimit(80)]
fn connect_rooms(map: &mut GameMap, rng: &mut WorldRng, rooms: &Vec<(i32, i32, i32, i32)>)
    requires
        old(map).wf(),
        rooms_ok(rooms@),
    ensures
        final(map).wf(),
        final(map).explored_view() == old(map).explored_view(),
        border_kept(*old(map), *final(map)),
        digs_only(*old(map), *final(map)),
        forall|k: int|
            #![trigger rooms@[k]]
            1 <= k < rooms@.len() ==> rooms_joined(*final(map), rooms@[k - 1], rooms@[k]),
        final(rng)@ == join_state(old(rng)@, joins(rooms@.len() as int)),
        joined_upto(
            *final(map),
            tile_fn(*old(map)),
            rooms@,
            old(rng)@,
            joins(rooms@.len() as int),
        ),
{
    proof {
        reveal(joined_upto);
    }
    let mut i: usize = 1;
    while i < rooms.len()
        invariant
            map.wf(),
            map.explored_view() == old(map).explored_view(),
            border_kept(*old(map), *map),
            rooms_ok(rooms@),
            1 <= i,
            digs_only(*old(map), *map),
            forall|k: int|
                #![trigger rooms@[k]]
                1 <= k < i ==> rooms_joined(*map, rooms@[k - 1], rooms@[k]),
            i <= rooms@.len() || i == 1,
            rng@ == join_state(old(rng)@, (i - 1) as nat),
            joined_upto(*map, tile_fn(*old(map)), rooms@, old(rng)@, (i - 1) as nat),
        decreases rooms@.len() - i,
    {
        let (x1, y1, w1, h1) = rooms[i - 1];
        let (x2, y2, w2, h2) = rooms[i];
        assert(room_ok(rooms@[i - 1]) && room_ok(rooms@[i as int]));
        let cx1 = x1 + w1 / 2;
        let cy1 = y1 + h1 / 2;
        let cx2 = x2 + w2 / 2;
        let cy2 = y2 + h2 / 2;
        let ghost m0 = *map;
        let ghost a = room_center(rooms@[i - 1]);
        let ghost b = room_center(rooms@[i as int]);
        assert(a.x == cx1 && a.y == cy1 && b.x == cx2 && b.y == cy2);
        let ghost st_i = rng@;
        let ghost jd = join_draws(st_i);
        let h_first = draw_ratio(rng, 1, 2);
        proof {
            assert(h_first == jd.0);
        }
        if h_first {
            carve_h_corridor(map, cx1, cx2, cy1);
            let ghost m1 = *map;
            carve_v_corridor(map, cy1, cy2, cx2);
            proof {
                lemma_border_trans(m0, m1, *map);
                lemma_dig_row(m0, m1, cx1 as int, cx2 as int, cy1 as int);
                lemma_dig_col(m1, *map, cy1 as int, cy2 as int, cx2 as int);
                lemma_digs_trans(m0, m1, *map);
                assert forall|px: int, py: int|
                    in_bounds_spec(px, py) && on_corridor(a, b, true, px, py) implies open_or_door(
                    #[trigger] map.tile_at(px, py),
                ) by {
                    if py == cy1 && between(px, cx1 as int, cx2 as int) {
                        assert(m1.tile_at(px, py).passable_spec());
                    }
                }
                assert(corridor_open(*map, a, b, true));
                assert forall|px: int, py: int| in_bounds_spec(px, py) implies #[trigger] map.tile_at(
                    px,
                    py,
                ) == corridor_tile(m0.tile_at(px, py), a, b, true, px, py) by {
                    assert(m1.tile_at(px, py) == carved(
                        m0.tile_at(px, py),
                        py == a.y && between(px, a.x as int, b.x as int),
                    ));
                }
            }
        } else {
            carve_v_corridor(map, cy1, cy2, cx1);
            let ghost m1 = *map;
            carve_h_corridor(map, cx1, cx2, cy2);
            proof {
                lemma_border_trans(m0, m1, *map);
                lemma_dig_col(m0, m1, cy1 as int, cy2 as int, cx1 as int);
                lemma_dig_row(m1, *map, cx1 as int, cx2 as int, cy2 as int);
                lemma_digs_trans(m0, m1, *map);
                assert forall|px: int, py: int|
                    in_bounds_spec(px, py) && on_corridor(a, b, false, px, py) implies open_or_door(
                    #[trigger] map.tile_at(px, py),
                ) by {
                    if px == cx1 && between(py, cy1 as int, cy2 as int) {
                        assert(m1.tile_at(px, py).passable_spec());
                    }
                }
                assert(corridor_open(*map, a, b, false));
                assert forall|px: int, py: int| in_bounds_spec(px, py) implies #[trigger] map.tile_at(
                    px,
                    py,
                ) == corridor_tile(m0.tile_at(px, py), a, b, false, px, py) by {
                    assert(m1.tile_at(px, py) == carved(
                        m0.tile_at(px, py),
                        px == a.x && between(py, a.y as int, b.y as int),
                    ));
                }
            }
        }
        proof {
            lemma_border_trans(*old(map), m0, *map);
            assert(rooms_joined(*map, rooms@[i - 1], rooms@[i as int]));
        }
        let ghost mc = *map;
        let ghost mut door_at: Option<(int, int)> = None;
        let door = draw_ratio(rng, 2, 5);
        proof {
            assert(door == jd.1);
        }
        if door {
            let ox = draw_i32(rng, -1, 1);
            let oy = draw_i32(rng, -1, 1);
            proof {
                assert(ox == jd.2 && oy == jd.3);
                assert(rng@ == jd.4);
            }
            let door_x = cx1 + ox;
            let door_y = cy1 + oy;
            if map.in_bounds(door_x, door_y) && map.is_passable(door_x, door_y) {
                let ghost m2 = *map;
                map.set_tile(door_x, door_y, Tile::new(TileType::Door { open: false }));
                proof {
                    door_at = Some((door_x as int, door_y as int));
                    assert forall|px: int, py: int| in_bounds_spec(px, py) implies #[trigger] map.tile_at(
                        px,
                        py,
                    ) == (if px == door_x && py == door_y {
                        fresh_tile(TileType::Door { open: false })
                    } else {
                        mc.tile_at(px, py)
                    }) by {
                        crate::map::lemma_cell_index_bounds(px, py);
                        crate::map::lemma_cell_index_bounds(door_x as int, door_y as int);
                        if crate::map::cell_index(px, py) == crate::map::cell_index(
                            door_x as int,
                            door_y as int,
                        ) {
                            crate::map::lemma_cell_index_injective(
                                px,
                                py,
                                door_x as int,
                                door_y as int,
                            );
                        }
                    }
                    assert forall|px: int, py: int|
                        in_bounds_spec(px, py) && !(2 <= px < 509 && 2 <= py < 509) implies #[trigger] map.tile_at(
                        px,
                        py,
                    ) == m2.tile_at(px, py) by {
                        crate::map::lemma_cell_index_bounds(px, py);
                        crate::map::lemma_cell_index_bounds(door_x as int, door_y as int);
                        if crate::map::cell_index(px, py) == crate::map::cell_index(
                            door_x as int,
                            door_y as int,
                        ) {
                            crate::map::lemma_cell_index_injective(
                                px,
                                py,
                                door_x as int,
                                door_y as int,
                            );
                        }
                    }
                    lemma_border_trans(*old(map), m2, *map);
                    assert forall|px: int, py: int| in_bounds_spec(px, py) implies {
                        &&& (#[trigger] map.tile_at(px, py) == m2.tile_at(px, py) || map.tile_at(
                            px,
                            py,
                        ) == fresh_tile(TileType::Floor) || map.tile_at(px, py) == fresh_tile(
                            TileType::Door { open: false },
                        ))
                        &&& (open_or_door(m2.tile_at(px, py)) ==> open_or_door(map.tile_at(px, py)))
                    } by {
                        crate::map::lemma_cell_index_bounds(px, py);
                        crate::map::lemma_cell_index_bounds(door_x as int, door_y as int);
                        if crate::map::cell_index(px, py) == crate::map::cell_index(
                            door_x as int,
                            door_y as int,
                        ) {
                            crate::map::lemma_cell_index_injective(
                                px,
                                py,
                                door_x as int,
                                door_y as int,
                            );
                        }
                    }
                    assert(digs_only(m2, *map));
                }
            }
        }
        proof {
            assert(rng@ == jd.4);
            assert(join_state(old(rng)@, i as nat) == join_draws(join_state(old(rng)@, (i - 1) as nat)).4);
            lemma_join_step(
                tile_fn(*old(map)),
                rooms@,
                old(rng)@,
                i as nat,
                m0,
                mc,
                *map,
                door_at,
            );
            lemma_digs_trans(m0, mc, *map);
            lemma_digs_trans(*old(map), m0, *map);
            assert forall|k: int|
                #![trigger rooms@[k]]
                1 <= k < i + 1 implies rooms_joined(*map, rooms@[k - 1], rooms@[k]) by {
                if k < i {
                    lemma_digs_keeps(m0, *map);
                    lemma_joined_keep(m0, *map, rooms@[k - 1], rooms@[k]);
                } else {
                    lemma_digs_keeps(mc, *map);
                    lemma_joined_keep(mc, *map, rooms@[k - 1], rooms@[k]);
                }
            }
        }
        i = i + 1;
    }
    proof {
        assert((i - 1) as nat == joins(rooms@.len() as int));
    }
}


/// The monsters after index `n` of `s` are all ones worldgen may place, and the first `n`
/// are `before`.
pub open spec fn monsters_added(before: Seq<Entity>, after: Seq<Entity>) -> bool {
    &&& before.len() <= after.len()
    &&& after.take(before.len() as int) == before
    &&& forall|i: int| before.len() <= i < after.len() ==> generated_monster(#[trigger] after[i])
}

/// The ground items after the first `before.len()` of `after` lie inside the area, and
/// the first ones are `before`.
pub open spec fn items_added(before: Seq<GroundItem>, after: Seq<GroundItem>) -> bool {
    &&& before.len() <= after.len()
    &&& after.take(before.len() as int) == before
    &&& forall|i: int| before.len() <= i < after.len() ==> inner(#[trigger] after[i].pos) && after[i].stack.quantity == 1
}

/// What is stated of a creature: number, name, kind, position, hit points and maximum.
pub open spec fn creature_view(e: Entity) -> (u32, Seq<char>, EntityType, Coord, i32, i32) {
    (e.id, e.name@, e.entity_type, e.pos, e.hp, e.max_hp)
}

/// An item kind as plain values: variant number, its numbers, and a scroll's effect.
pub open spec fn item_type_view(t: ItemType) -> (int, int, int, Seq<char>) {
    match t {
        ItemType::Weapon { damage, attack_bonus } => (0, damage as int, attack_bonus as int, Seq::empty()),
        ItemType::Armor { defense } => (1, defense as int, 0, Seq::empty()),
        ItemType::Potion { heal } => (2, heal as int, 0, Seq::empty()),
        ItemType::Scroll { effect } => (3, 0, 0, effect@),
        ItemType::Food { nutrition } => (4, nutrition as int, 0, Seq::empty()),
    }
}

/// What is stated of a ground item: the item's number, name and kind, the count, and
/// where it lies.
pub open spec fn ground_view(g: GroundItem) -> (u32, Seq<char>, (int, int, int, Seq<char>), u32, Coord) {
    (g.stack.item.id, g.stack.item.name@, item_type_view(g.stack.item.item_type), g.stack.quantity, g.pos)
}

/// The item worldgen places for the drawn kind `k`: its name and kind.
pub open spec fn item_kind(k: int) -> (Seq<char>, (int, int, int, Seq<char>)) {
    if k == 0 {
        ("Short Sword"@, (0, 5, 1, Seq::empty()))
    } else if k == 1 {
        ("Leather Armor"@, (1, 2, 0, Seq::empty()))
    } else if k == 2 {
        ("Health Potion"@, (2, 20, 0, Seq::empty()))
    } else if k == 3 {
        ("Bread"@, (4, 30, 0, Seq::empty()))
    } else {
        ("Scroll of Light"@, (3, 0, 0, "light"@))
    }
}

/// Generator state `st` once the draw `d` is made.
pub open spec fn after_draw(st: (u64, Seq<(int, int, int)>), d: (int, int, int)) -> (u64, Seq<(int, int, int)>) {
    (st.0, st.1.push(d))
}

/// The `c` monsters put in `room` from generator state `st` (each drawing x, y and kind),
/// numbered from `id`, with the state after their draws.
pub open spec fn monsters_drawn(
    st: (u64, Seq<(int, int, int)>),
    room: (i32, i32, i32, i32),
    id: int,
    c: nat,
) -> (Seq<(u32, Seq<char>, EntityType, Coord, i32, i32)>, (u64, Seq<(int, int, int)>))
    decreases c,
{
    if c == 0 {
        (Seq::empty(), st)
    } else {
        let p = monsters_drawn(st, room, id, (c - 1) as nat);
        let lx = room.0 + 1;
        let hx = room.0 + room.2 - 2;
        let ly = room.1 + 1;
        let hy = room.1 + room.3 - 2;
        let ex = stream_i32(p.1, lx, hx);
        let s1 = after_draw(p.1, (0, lx, hx));
        let ey = stream_i32(s1, ly, hy);
        let s2 = after_draw(s1, (0, ly, hy));
        let k = stream_i32(s2, 0, 3);
        let kind = monster_kind(k);
        (
            p.0.push(((id + c - 1) as u32, kind.0, kind.1, Coord { x: ex as i32, y: ey as i32 }, kind.2, kind.2)),
            after_draw(s2, (0, 0, 3)),
        )
    }
}

/// The `c` ground items put in `room` from generator state `st` (each drawing x, y and
/// kind), numbered from `id`, with the state after their draws.
pub open spec fn items_drawn(
    st: (u64, Seq<(int, int, int)>),
    room: (i32, i32, i32, i32),
    id: int,
    c: nat,
) -> (Seq<(u32, Seq<char>, (int, int, int, Seq<char>), u32, Coord)>, (u64, Seq<(int, int, int)>))
    decreases c,
{
    if c == 0 {
        (Seq::empty(), st)
    } else {
        let p = items_drawn(st, room, id, (c - 1) as nat);
        let lx = room.0 + 1;
        let hx = room.0 + room.2 - 2;
        let ly = room.1 + 1;
        let hy = room.1 + room.3 - 2;
        let ix = stream_i32(p.1, lx, hx);
        let s1 = after_draw(p.1, (0, lx, hx));
        let iy = stream_i32(s1, ly, hy);
        let s2 = after_draw(s1, (0, ly, hy));
        let k = stream_i32(s2, 0, 4);
        let kind = item_kind(k);
        (
            p.0.push(((id + c - 1) as u32, kind.0, kind.1, 1u32, Coord { x: ix as i32, y: iy as i32 })),
            after_draw(s2, (0, 0, 4)),
        )
    }
}

/// What populating `room` puts down from generator state `st`, monsters numbered from
/// `mid` and items from `iid`: nothing in a room under 15 cells; otherwise a drawn number
/// (0 to 3) of monsters, then a drawn number (0 to 2) of items; with the state after.
pub open spec fn room_pop(
    st: (u64, Seq<(int, int, int)>),
    room: (i32, i32, i32, i32),
    mid: int,
    iid: int,
) -> (
    Seq<(u32, Seq<char>, EntityType, Coord, i32, i32)>,
    Seq<(u32, Seq<char>, (int, int, int, Seq<char>), u32, Coord)>,
    (u64, Seq<(int, int, int)>),
) {
    if room.2 * room.3 < 15 {
        (Seq::empty(), Seq::empty(), st)
    } else {
        let count = stream_i32(st, 0, 3);
        let ms = monsters_drawn(after_draw(st, (0, 0, 3)), room, mid, count as nat);
        let ic = stream_i32(ms.1, 0, 2);
        let is = items_drawn(after_draw(ms.1, (0, 0, 2)), room, iid, ic as nat);
        (ms.0, is.0, is.1)
    }
}

/// What populating the first `ri` rooms puts down from generator state `st`, numbering
/// monsters from `mid` and items from `iid`, with the state after.
pub open spec fn pop_upto(
    st: (u64, Seq<(int, int, int)>),
    rooms: Seq<(i32, i32, i32, i32)>,
    ri: nat,
    mid: int,
    iid: int,
) -> (
    Seq<(u32, Seq<char>, EntityType, Coord, i32, i32)>,
    Seq<(u32, Seq<char>, (int, int, int, Seq<char>), u32, Coord)>,
    (u64, Seq<(int, int, int)>),
)
    decreases ri,
{
    if ri == 0 {
        (Seq::empty(), Seq::empty(), st)
    } else {
        let p = pop_upto(st, rooms, (ri - 1) as nat, mid, iid);
        let r = room_pop(p.2, rooms[ri - 1], mid + p.0.len(), iid + p.1.len());
        (p.0 + r.0, p.1 + r.1, r.2)
    }
}

/// The creatures of `s` from place `n` on, as stated.
pub open spec fn creatures_from(s: Seq<Entity>, n: int) -> Seq<(u32, Seq<char>, EntityType, Coord, i32, i32)> {
    s.skip(n).map_values(|e: Entity| creature_view(e))
}

/// The ground items of `s` from place `n` on, as stated.
pub open spec fn grounds_from(s: Seq<GroundItem>, n: int) -> Seq<(u32, Seq<char>, (int, int, int, Seq<char>), u32, Coord)> {
    s.skip(n).map_values(|g: GroundItem| ground_view(g))
}

proof fn lemma_creatures_push(a: Seq<Entity>, b: Seq<Entity>, n: int)
    requires
        0 <= n <= a.len(),
        b.len() == a.len() + 1,
        b.drop_last() == a,
    ensures
        creatures_from(b, n) == creatures_from(a, n).push(creature_view(b.last())),
{
    assert(creatures_from(b, n) =~= creatures_from(a, n).push(creature_view(b.last()))) by {
        assert forall|i: int| 0 <= i < creatures_from(a, n).len() implies #[trigger] creatures_from(b, n)[i]
            == creatures_from(a, n)[i] by {
            assert(b.skip(n)[i] == b[n + i]);
            assert(a.skip(n)[i] == a[n + i]);
            assert(b.drop_last()[n + i] == b[n + i]);
        }
    }
}

proof fn lemma_grounds_push(a: Seq<GroundItem>, b: Seq<GroundItem>, n: int)
    requires
        0 <= n <= a.len(),
        b.len() == a.len() + 1,
        b.drop_last() == a,
    ensures
        grounds_from(b, n) == grounds_from(a, n).push(ground_view(b.last())),
{
    assert(grounds_from(b, n) =~= grounds_from(a, n).push(ground_view(b.last()))) by {
        assert forall|i: int| 0 <= i < grounds_from(a, n).len() implies #[trigger] grounds_from(b, n)[i]
            == grounds_from(a, n)[i] by {
            assert(b.skip(n)[i] == b[n + i]);
            assert(a.skip(n)[i] == a[n + i]);
            assert(b.drop_last()[n + i] == b[n + i]);
        }
    }
}

fn spawn_monster(entities: &mut EntityManager, k: i32, pos: Coord)
    requires
        old(entities).wf(),
        old(entities).next_id_view() < u32::MAX,
        0 <= k <= 3,
        inner(pos),
    ensures
        final(entities).wf(),
        final(entities).next_id_view() == old(entities).next_id_view() + 1,
        monsters_added(old(entities).view_seq(), final(entities).view_seq()),
        final(entities).view_seq().len() == old(entities).view_seq().len() + 1,
        final(entities).view_seq().drop_last() == old(entities).view_seq(),
        final(entities).view_seq().last().pos == pos,
        creature_view(final(entities).view_seq().last()) == (
            old(entities).next_id_view(),
            monster_kind(k as int).0,
            monster_kind(k as int).1,
            pos,
            monster_kind(k as int).2,
            monster_kind(k as int).2,
        ),
{
    let (name, etype, hp) = if k == 0 {
        (String::from_str("Zombie"), EntityType::Zombie, 15)
    } else if k == 1 {
        (String::from_str("Skeleton"), EntityType::Skeleton, 12)
    } else if k == 2 {
        (String::from_str("Goblin"), EntityType::Goblin, 8)
    } else {
        (String::from_str("Rat"), EntityType::Rat, 4)
    };
    let ghost before = entities.view_seq();
    entities.spawn(name, etype, pos, hp);
    proof {
        let e = entities.view_seq().last();
        assert(e.name@ == monster_kind(k as int).0 && e.entity_type == monster_kind(k as int).1
            && e.hp == monster_kind(k as int).2);
        assert(generated_monster(e));
        assert(entities.view_seq().take(before.len() as int) =~= before);
    }
}

fn spawn_item(items: &mut ItemManager, k: i32, pos: Coord)
    requires
        old(items).wf(),
        old(items).next_id_view() < u32::MAX,
        inner(pos),
    ensures
        final(items).wf(),
        final(items).next_id_view() == old(items).next_id_view() + 1,
        items_added(old(items).view_seq(), final(items).view_seq()),
        final(items).view_seq().drop_last() == old(items).view_seq(),
        final(items).view_seq().len() == old(items).view_seq().len() + 1,
        final(items).view_seq().last().pos == pos,
        final(items).view_seq().last().stack.quantity == 1,
        ground_view(final(items).view_seq().last()) == (
            old(items).next_id_view(),
            item_kind(k as int).0,
            item_kind(k as int).1,
            1u32,
            pos,
        ),
{
    let ghost before = items.view_seq();
    if k == 0 {
        items.spawn_ground("Short Sword", ItemType::Weapon { damage: 5, attack_bonus: 1 }, pos, 1);
    } else if k == 1 {
        items.spawn_ground("Leather Armor", ItemType::Armor { defense: 2 }, pos, 1);
    } else if k == 2 {
        items.spawn_ground("Health Potion", ItemType::Potion { heal: 20 }, pos, 1);
    } else if k == 3 {
        items.spawn_ground("Bread", ItemType::Food { nutrition: 30 }, pos, 1);
    } else {
        items.spawn_ground(
            "Scroll of Light",
            ItemType::Scroll { effect: String::from_str("light") },
            pos,
            1,
        );
    }
    proof {
        assert(items.view_seq().take(before.len() as int) =~= items.view_seq().drop_last());
    }
}

/// The sum of the first `k` counts of `s`.
pub open spec fn psum(s: Seq<int>, k: int) -> int
    decreases k,
{
    if k <= 0 {
        0
    } else {
        psum(s, k - 1) + s[k - 1]
    }
}

/// Cell `c` lies inside room `r`, off its outer ring of cells.
pub open spec fn in_interior(r: (i32, i32, i32, i32), c: Coord) -> bool {
    r.0 + 1 <= c.x <= r.0 + r.2 - 2 && r.1 + 1 <= c.y <= r.1 + r.3 - 2
}

/// Room `k` of `rooms` got `counts[k]` new things: at most `most`, and none in a room of
/// fewer than 15 cells.
pub open spec fn per_room(rooms: Seq<(i32, i32, i32, i32)>, counts: Seq<int>, most: int) -> bool {
    &&& counts.len() == rooms.len()
    &&& forall|k: int|
        0 <= k < rooms.len() ==> 0 <= #[trigger] counts[k] <= most && (rooms[k].2 * rooms[k].3 < 15
            ==> counts[k] == 0)
}

/// The monsters after the first `before.len()` of `after` are, room by room, `counts[k]`
/// generated monsters inside room `k`.
pub open spec fn monsters_per_room(
    before: Seq<Entity>,
    after: Seq<Entity>,
    rooms: Seq<(i32, i32, i32, i32)>,
    counts: Seq<int>,
) -> bool {
    &&& per_room(rooms, counts, 3)
    &&& after.len() == before.len() + psum(counts, rooms.len() as int)
    &&& monsters_placed(before.len() as int, after, rooms, counts)
}

/// The monsters of `after` from index `n` on are, room by room, `counts[k]` generated
/// monsters inside room `k`.
pub open spec fn monsters_placed(
    n: int,
    after: Seq<Entity>,
    rooms: Seq<(i32, i32, i32, i32)>,
    counts: Seq<int>,
) -> bool {
    forall|k: int, i: int|
        #![trigger after[i], counts[k]]
        0 <= k < rooms.len() && n + psum(counts, k) <= i < n + psum(counts, k + 1)
            ==> generated_monster(after[i]) && in_interior(rooms[k], after[i].pos)
}

/// The ground items of `after` from index `n` on are, room by room, `counts[k]` single
/// items inside room `k`.
pub open spec fn items_placed(
    n: int,
    after: Seq<GroundItem>,
    rooms: Seq<(i32, i32, i32, i32)>,
    counts: Seq<int>,
) -> bool {
    forall|k: int, i: int|
        #![trigger after[i], counts[k]]
        0 <= k < rooms.len() && n + psum(counts, k) <= i < n + psum(counts, k + 1)
            ==> after[i].stack.quantity == 1 && in_interior(rooms[k], after[i].pos)
}

proof fn lemma_psum_push(s: Seq<int>, v: int, k: int)
    requires
        0 <= k <= s.len(),
    ensures
        psum(s.push(v), k) == psum(s, k),
        psum(s.push(v), s.len() as int + 1) == psum(s, s.len() as int) + v,
{
    lemma_psum_push_eq(s, v, k);
    lemma_psum_push_eq(s, v, s.len() as int);
    assert(s.push(v)[s.len() as int] == v);
}

proof fn lemma_psum_push_eq(s: Seq<int>, v: int, k: int)
    requires
        0 <= k <= s.len(),
    ensures
        psum(s.push(v), k) == psum(s, k),
    decreases k,
{
    if k > 0 {
        lemma_psum_push_eq(s, v, k - 1);
        assert(s.push(v)[k - 1] == s[k - 1]);
    }
}

proof fn lemma_psum_mono(s: Seq<int>, a: int, b: int)
    requires
        0 <= a <= b <= s.len(),
        forall|k: int| 0 <= k < s.len() ==> 0 <= #[trigger] s[k],
    ensures
        psum(s, a) <= psum(s, b),
    decreases b - a,
{
    if a < b {
        lemma_psum_mono(s, a, b - 1);
    }
}

/// The ground items after the first `before.len()` of `after` are, room by room,
/// `counts[k]` single items inside room `k`.
pub open spec fn items_per_room(
    before: Seq<GroundItem>,
    after: Seq<GroundItem>,
    rooms: Seq<(i32, i32, i32, i32)>,
    counts: Seq<int>,
) -> bool {
    &&& per_room(rooms, counts, 2)
    &&& after.len() == before.len() + psum(counts, rooms.len() as int)
    &&& items_placed(before.len() as int, after, rooms, counts)
}

proof fn lemma_room_step_none(rooms: Seq<(i32, i32, i32, i32)>, ri: int, counts: Seq<int>, most: int)
    requires
        0 <= ri < rooms.len(),
        counts.len() == ri,
        per_room(rooms.take(ri), counts, most),
        most >= 0,
    ensures
        per_room(rooms.take(ri + 1), counts.push(0), most),
{
    lemma_room_step(rooms, ri, counts, most, 0);
}

proof fn lemma_room_step(rooms: Seq<(i32, i32, i32, i32)>, ri: int, counts: Seq<int>, most: int, v: int)
    requires
        0 <= ri < rooms.len(),
        counts.len() == ri,
        per_room(rooms.take(ri), counts, most),
        0 <= v <= most,
        rooms[ri].2 * rooms[ri].3 < 15 ==> v == 0,
    ensures
        per_room(rooms.take(ri + 1), counts.push(v), most),
{
    let r2 = rooms.take(ri + 1);
    let c2 = counts.push(v);
    assert forall|k: int| 0 <= k < r2.len() implies 0 <= #[trigger] c2[k] <= most && (r2[k].2 * r2[k].3
        < 15 ==> c2[k] == 0) by {
        if k < ri {
            assert(c2[k] == counts[k]);
            assert(r2[k] == rooms.take(ri)[k]);
        }
    }
}

proof fn lemma_monsters_commit(
    n: int,
    ents: Seq<Entity>,
    rooms: Seq<(i32, i32, i32, i32)>,
    ri: int,
    mc: Seq<int>,
    v: int,
)
    requires
        0 <= ri < rooms.len(),
        mc.len() == ri,
        monsters_placed(n, ents, rooms.take(ri), mc),
        forall|i: int|
            n + psum(mc, ri) <= i < n + psum(mc, ri) + v ==> generated_monster(#[trigger] ents[i])
                && in_interior(rooms[ri], ents[i].pos),
    ensures
        monsters_placed(n, ents, rooms.take(ri + 1), mc.push(v)),
{
    let r2 = rooms.take(ri + 1);
    let c2 = mc.push(v);
    assert forall|k: int, i: int|
        #![trigger ents[i], c2[k]]
        0 <= k < r2.len() && n + psum(c2, k) <= i < n + psum(c2, k + 1) implies generated_monster(ents[i])
        && in_interior(r2[k], ents[i].pos) by {
        lemma_psum_push(mc, v, k);
        if k < ri {
            lemma_psum_push(mc, v, k + 1);
            assert(r2[k] == rooms.take(ri)[k]);
            assert(mc[k] == c2[k]);
        }
    }
}

proof fn lemma_items_commit(
    n: int,
    its: Seq<GroundItem>,
    rooms: Seq<(i32, i32, i32, i32)>,
    ri: int,
    ic: Seq<int>,
    v: int,
)
    requires
        0 <= ri < rooms.len(),
        ic.len() == ri,
        items_placed(n, its, rooms.take(ri), ic),
        forall|i: int|
            n + psum(ic, ri) <= i < n + psum(ic, ri) + v ==> #[trigger] its[i].stack.quantity == 1
                && in_interior(rooms[ri], its[i].pos),
    ensures
        items_placed(n, its, rooms.take(ri + 1), ic.push(v)),
{
    let r2 = rooms.take(ri + 1);
    let c2 = ic.push(v);
    assert forall|k: int, i: int|
        #![trigger its[i], c2[k]]
        0 <= k < r2.len() && n + psum(c2, k) <= i < n + psum(c2, k + 1) implies its[i].stack.quantity == 1
        && in_interior(r2[k], its[i].pos) by {
        lemma_psum_push(ic, v, k);
        if k < ri {
            lemma_psum_push(ic, v, k + 1);
            assert(r2[k] == rooms.take(ri)[k]);
            assert(ic[k] == c2[k]);
        }
    }
}

proof fn lemma_monsters_append(
    n: int,
    a: Seq<Entity>,
    b: Seq<Entity>,
    rooms: Seq<(i32, i32, i32, i32)>,
    mc: Seq<int>,
)
    requires
        monsters_placed(n, a, rooms, mc),
        n >= 0,
        mc.len() == rooms.len(),
        forall|k: int| 0 <= k < mc.len() ==> 0 <= #[trigger] mc[k],
        a.len() >= n + psum(mc, rooms.len() as int),
        b.len() == a.len() + 1,
        b.drop_last() == a,
    ensures
        monsters_placed(n, b, rooms, mc),
{
    assert forall|k: int, i: int|
        #![trigger b[i], mc[k]]
        0 <= k < rooms.len() && n + psum(mc, k) <= i < n + psum(mc, k + 1) implies generated_monster(b[i])
        && in_interior(rooms[k], b[i].pos) by {
        lemma_psum_mono(mc, k + 1, rooms.len() as int);
        lemma_psum_mono(mc, 0, k);
        assert(0 <= i < a.len());
        assert(b.drop_last()[i] == b[i]);
        assert(generated_monster(a[i]) && in_interior(rooms[k], a[i].pos));
    }
}

#[verifier::spinoff_prover]
#[verifier::rlimit(40)]
proof fn lemma_items_append(
    n: int,
    a: Seq<GroundItem>,
    b: Seq<GroundItem>,
    rooms: Seq<(i32, i32, i32, i32)>,
    ic: Seq<int>,
)
    requires
        items_placed(n, a, rooms, ic),
        n >= 0,
        ic.len() == rooms.len(),
        forall|k: int| 0 <= k < ic.len() ==> 0 <= #[trigger] ic[k],
        a.len() >= n + psum(ic, rooms.len() as int),
        b.len() == a.len() + 1,
        b.drop_last() == a,
    ensures
        items_placed(n, b, rooms, ic),
{
    assert forall|k: int, i: int|
        #![trigger b[i], ic[k]]
        0 <= k < rooms.len() && n + psum(ic, k) <= i < n + psum(ic, k + 1) implies b[i].stack.quantity == 1
        && in_interior(rooms[k], b[i].pos) by {
        lemma_psum_mono(ic, k + 1, rooms.len() as int);
        lemma_psum_mono(ic, 0, k);
        assert(0 <= i < a.len());
        assert(b.drop_last()[i] == b[i]);
        assert(a[i].stack.quantity == 1 && in_interior(rooms[k], a[i].pos));
    }
}

/// Put up to three monsters and two ground items inside each room of at least 15 cells.
#[verifier::spinoff_prover]
fn populate(
    entities: &mut EntityManager,
    items: &mut ItemManager,
    rng: &mut WorldRng,
    rooms: &Vec<(i32, i32, i32, i32)>,
)
    requires
        old(entities).wf(),
        old(items).wf(),
        old(entities).next_id_view() <= u32::MAX - 100,
        old(items).next_id_view() <= u32::MAX - 100,
        rooms_ok(rooms@),
        rooms@.len() <= MAX_ROOMS,
    ensures
        final(entities).wf(),
        final(items).wf(),
        monsters_added(old(entities).view_seq(), final(entities).view_seq()),
        items_added(old(items).view_seq(), final(items).view_seq()),
        final(entities).next_id_view() <= old(entities).next_id_view() + 3 * MAX_ROOMS,
        exists|mc: Seq<int>, ic: Seq<int>|
            #![trigger monsters_per_room(old(entities).view_seq(), final(entities).view_seq(), rooms@, mc), items_per_room(old(items).view_seq(), final(items).view_seq(), rooms@, ic)]
            monsters_per_room(old(entities).view_seq(), final(entities).view_seq(), rooms@, mc)
                && items_per_room(old(items).view_seq(), final(items).view_seq(), rooms@, ic),
        final(rng)@ == pop_upto(
            old(rng)@,
            rooms@,
            rooms@.len() as nat,
            old(entities).next_id_view() as int,
            old(items).next_id_view() as int,
        ).2,
        creatures_from(final(entities).view_seq(), old(entities).view_seq().len() as int) == pop_upto(
            old(rng)@,
            rooms@,
            rooms@.len() as nat,
            old(entities).next_id_view() as int,
            old(items).next_id_view() as int,
        ).0,
        grounds_from(final(items).view_seq(), old(items).view_seq().len() as int) == pop_upto(
            old(rng)@,
            rooms@,
            rooms@.len() as nat,
            old(entities).next_id_view() as int,
            old(items).next_id_view() as int,
        ).1,
{
    let ghost e0 = entities.view_seq();
    let ghost mut mc: Seq<int> = Seq::empty();
    let ghost mut ic: Seq<int> = Seq::empty();
    let ghost i0 = items.view_seq();
    let ghost n0 = entities.next_id_view();
    let ghost m0 = items.next_id_view();
    proof {
        assert(e0.take(e0.len() as int) =~= e0);
        assert(i0.take(i0.len() as int) =~= i0);
        assert(creatures_from(e0, e0.len() as int) =~= Seq::empty());
        assert(grounds_from(i0, i0.len() as int) =~= Seq::empty());
    }
    let mut ri: usize = 0;
    while ri < rooms.len()
        invariant
            entities.wf(),
            items.wf(),
            rooms_ok(rooms@),
            rooms@.len() <= MAX_ROOMS,
            ri <= rooms@.len(),
            n0 <= u32::MAX - 100,
            m0 <= u32::MAX - 100,
            entities.next_id_view() <= n0 + 3 * ri,
            items.next_id_view() <= m0 + 2 * ri,
            monsters_added(e0, entities.view_seq()),
            items_added(i0, items.view_seq()),
            mc.len() == ri,
            ic.len() == ri,
            per_room(rooms@.take(ri as int), mc, 3),
            per_room(rooms@.take(ri as int), ic, 2),
            entities.view_seq().len() == e0.len() + psum(mc, ri as int),
            items.view_seq().len() == i0.len() + psum(ic, ri as int),
            monsters_placed(e0.len() as int, entities.view_seq(), rooms@.take(ri as int), mc),
            items_placed(i0.len() as int, items.view_seq(), rooms@.take(ri as int), ic),
            rng@ == pop_upto(old(rng)@, rooms@, ri as nat, n0 as int, m0 as int).2,
            creatures_from(entities.view_seq(), e0.len() as int) == pop_upto(old(rng)@, rooms@, ri as nat, n0 as int, m0 as int).0,
            grounds_from(items.view_seq(), i0.len() as int) == pop_upto(old(rng)@, rooms@, ri as nat, n0 as int, m0 as int).1,
            entities.next_id_view() == n0 + pop_upto(old(rng)@, rooms@, ri as nat, n0 as int, m0 as int).0.len(),
            items.next_id_view() == m0 + pop_upto(old(rng)@, rooms@, ri as nat, n0 as int, m0 as int).1.len(),
        decreases rooms@.len() - ri,
    {
        let (rx, ry, rw, rh) = rooms[ri];
        assert(room_ok(rooms@[ri as int]));
        assert(rw * rh <= 100) by (nonlinear_arith)
            requires
                0 <= rw <= 10,
                0 <= rh <= 10,
        ;
        assert(rw * rh >= 0) by (nonlinear_arith)
            requires
                0 <= rw,
                0 <= rh,
        ;
        if rw * rh < 15 {
            proof {
                lemma_room_step_none(rooms@, ri as int, mc, 3);
                lemma_room_step_none(rooms@, ri as int, ic, 2);
                lemma_psum_push(mc, 0, ri as int);
                lemma_psum_push(ic, 0, ri as int);
                lemma_monsters_commit(e0.len() as int, entities.view_seq(), rooms@, ri as int, mc, 0);
                lemma_items_commit(i0.len() as int, items.view_seq(), rooms@, ri as int, ic, 0);
                mc = mc.push(0);
                ic = ic.push(0);
                let pp = pop_upto(old(rng)@, rooms@, ri as nat, n0 as int, m0 as int);
                assert(pop_upto(old(rng)@, rooms@, (ri + 1) as nat, n0 as int, m0 as int) == (
                    pp.0 + Seq::empty(),
                    pp.1 + Seq::empty(),
                    pp.2,
                ));
                assert(pp.0 + Seq::<(u32, Seq<char>, EntityType, Coord, i32, i32)>::empty() =~= pp.0);
                assert(pp.1 + Seq::<(u32, Seq<char>, (int, int, int, Seq<char>), u32, Coord)>::empty() =~= pp.1);
            }
            ri = ri + 1;
            continue;
        }
        let ghost pp = pop_upto(old(rng)@, rooms@, ri as nat, n0 as int, m0 as int);
        let ghost mid: int = n0 + pp.0.len();
        let ghost iid: int = m0 + pp.1.len();
        let ghost room = rooms@[ri as int];
        let ghost st_r = rng@;
        let count = draw_i32(rng, 0, 3);
        let ghost s1 = rng@;
        let mut c: i32 = 0;
        let ghost rt = rooms@.take(ri as int);
        proof {
            assert forall|k: int| 0 <= k < mc.len() implies 0 <= #[trigger] mc[k] by {
                assert(0 <= mc[k]);
            }
        }
        while c < count
            invariant
                rt == rooms@.take(ri as int),
                mc.len() == ri,
                per_room(rt, mc, 3),
                forall|k: int| 0 <= k < mc.len() ==> 0 <= #[trigger] mc[k],
                e0.len() + psum(mc, ri as int) + c == entities.view_seq().len(),
                monsters_placed(e0.len() as int, entities.view_seq(), rt, mc),
                forall|i: int|
                    e0.len() + psum(mc, ri as int) <= i < entities.view_seq().len() ==> generated_monster(
                        #[trigger] entities.view_seq()[i],
                    ) && in_interior(rooms@[ri as int], entities.view_seq()[i].pos),
                rooms@[ri as int] == (rx, ry, rw, rh),
                entities.wf(),
                room_ok((rx, ry, rw, rh)),
                0 <= c <= count <= 3,
                ri < rooms@.len(),
                ri < MAX_ROOMS,
                n0 <= u32::MAX - 100,
                entities.next_id_view() <= n0 + 3 * ri + c,
                monsters_added(e0, entities.view_seq()),
                rng@ == monsters_drawn(s1, room, mid, c as nat).1,
                creatures_from(entities.view_seq(), e0.len() as int) == pp.0 + monsters_drawn(s1, room, mid, c as nat).0,
                entities.next_id_view() == mid + c,
                room == (rx, ry, rw, rh),
            decreases count - c,
        {
            let ex = draw_i32(rng, rx + 1, rx + rw - 2);
            let ey = draw_i32(rng, ry + 1, ry + rh - 2);
            let k = draw_i32(rng, 0, 3);
            let ghost before = entities.view_seq();
            spawn_monster(entities, k, Coord::new(ex, ey));
            proof {
                let after = entities.view_seq();
                lemma_psum_mono(mc, 0, ri as int);
                lemma_creatures_push(before, after, e0.len() as int);
                let md = monsters_drawn(s1, room, mid, (c + 1) as nat);
                let mp = monsters_drawn(s1, room, mid, c as nat);
                assert(md.0 == mp.0.push(creature_view(after.last())));
                assert(pp.0 + md.0 =~= (pp.0 + mp.0).push(creature_view(after.last())));
                lemma_monsters_append(e0.len() as int, before, after, rt, mc);
                assert forall|i: int|
                    e0.len() + psum(mc, ri as int) <= i < after.len() implies generated_monster(
                    #[trigger] after[i],
                ) && in_interior(rooms@[ri as int], after[i].pos) by {
                    if i < before.len() {
                        assert(after.drop_last()[i] == after[i]);
                    }
                }
                assert(after.take(before.len() as int) == before);
                assert(after.take(e0.len() as int) =~= before.take(e0.len() as int));
                assert forall|i: int| e0.len() <= i < after.len() implies generated_monster(#[trigger] after[i]) by {
                    if i < before.len() {
                        assert(after[i] == after.take(before.len() as int)[i]);
                    }
                }
            }
            c = c + 1;
        }
        proof {
            lemma_room_step(rooms@, ri as int, mc, 3, count as int);
            lemma_psum_push(mc, count as int, ri as int);
            lemma_monsters_commit(e0.len() as int, entities.view_seq(), rooms@, ri as int, mc, count as int);
            mc = mc.push(count as int);
        }
        let ghost s2 = rng@;
        let item_count = draw_i32(rng, 0, 2);
        let ghost s3 = rng@;
        let mut c: i32 = 0;
        proof {
            assert forall|k: int| 0 <= k < ic.len() implies 0 <= #[trigger] ic[k] by {
                assert(0 <= ic[k]);
            }
        }
        while c < item_count
            invariant
                rt == rooms@.take(ri as int),
                ic.len() == ri,
                per_room(rt, ic, 2),
                forall|k: int| 0 <= k < ic.len() ==> 0 <= #[trigger] ic[k],
                i0.len() + psum(ic, ri as int) + c == items.view_seq().len(),
                items_placed(i0.len() as int, items.view_seq(), rt, ic),
                forall|i: int|
                    i0.len() + psum(ic, ri as int) <= i < items.view_seq().len() ==> #[trigger] items.view_seq()[i].stack.quantity
                        == 1 && in_interior(rooms@[ri as int], items.view_seq()[i].pos),
                rooms@[ri as int] == (rx, ry, rw, rh),
                items.wf(),
                room_ok((rx, ry, rw, rh)),
                0 <= c <= item_count <= 2,
                ri < rooms@.len(),
                ri < MAX_ROOMS,
                m0 <= u32::MAX - 100,
                items.next_id_view() <= m0 + 2 * ri + c,
                items_added(i0, items.view_seq()),
                rng@ == items_drawn(s3, room, iid, c as nat).1,
                grounds_from(items.view_seq(), i0.len() as int) == pp.1 + items_drawn(s3, room, iid, c as nat).0,
                items.next_id_view() == iid + c,
                room == (rx, ry, rw, rh),
            decreases item_count - c,
        {
            let ix = draw_i32(rng, rx + 1, rx + rw - 2);
            let iy = draw_i32(rng, ry + 1, ry + rh - 2);
            let k = draw_i32(rng, 0, 4);
            let ghost before = items.view_seq();
            spawn_item(items, k, Coord::new(ix, iy));
            proof {
                let after = items.view_seq();
                lemma_psum_mono(ic, 0, ri as int);
                lemma_grounds_push(before, after, i0.len() as int);
                let gd = items_drawn(s3, room, iid, (c + 1) as nat);
                let gp = items_drawn(s3, room, iid, c as nat);
                assert(gd.0 == gp.0.push(ground_view(after.last())));
                assert(pp.1 + gd.0 =~= (pp.1 + gp.0).push(ground_view(after.last())));
                lemma_items_append(i0.len() as int, before, after, rt, ic);
                lemma_psum_mono(ic, 0, ri as int);
                assert forall|i: int|
                    i0.len() + psum(ic, ri as int) <= i < after.len() implies #[trigger] after[i].stack.quantity
                    == 1 && in_interior(rooms@[ri as int], after[i].pos) by {
                    if i < before.len() {
                        assert(after.drop_last()[i] == after[i]);
                    }
                }
                assert(after.take(i0.len() as int) =~= before.take(i0.len() as int));
                assert forall|i: int| i0.len() <= i < after.len() implies inner(#[trigger] after[i].pos) && after[i].stack.quantity == 1 by {
                    if i < before.len() {
                        assert(after[i] == after.take(before.len() as int)[i]);
                    }
                }
            }
            c = c + 1;
        }
        proof {
            lemma_room_step(rooms@, ri as int, ic, 2, item_count as int);
            lemma_psum_push(ic, item_count as int, ri as int);
            lemma_items_commit(i0.len() as int, items.view_seq(), rooms@, ri as int, ic, item_count as int);
            ic = ic.push(item_count as int);
            assert(room_pop(st_r, room, mid, iid) == (
                monsters_drawn(s1, room, mid, count as nat).0,
                items_drawn(s3, room, iid, item_count as nat).0,
                items_drawn(s3, room, iid, item_count as nat).1,
            ));
        }
        ri = ri + 1;
    }
    proof {
        assert(rooms@.take(rooms@.len() as int) =~= rooms@);
        assert(monsters_per_room(e0, entities.view_seq(), rooms@, mc));
        assert(items_per_room(i0, items.view_seq(), rooms@, ic));
    }
}

/// The shape a generated map has for the rooms `rooms` (in placing order) and the spawn
/// position `r`: between 1 and 16 well-separated rooms, `r` the centre of the first,
/// every room cell walkable or a closed door, each room joined to the one before it by
/// an L-shaped corridor, and, with more than one room, stairs up just right of the centre
/// of the last.
pub open spec fn generated_layout(map: GameMap, rooms: Seq<(i32, i32, i32, i32)>, r: Coord) -> bool {
    &&& 1 <= rooms.len() <= MAX_ROOMS
    &&& rooms_ok(rooms)
    &&& r == room_center(rooms[0])
    &&& rooms_open(map, rooms)
    &&& forall|k: int| 1 <= k < rooms.len() ==> rooms_joined(map, rooms[k - 1], #[trigger] rooms[k])
    &&& rooms.len() > 1 ==> map.tile_at(
        room_center(rooms.last()).x + 1,
        room_center(rooms.last()).y as int,
    ) == fresh_tile(TileType::StairsUp)
}

/// The rooms a fresh generator seeded from `seed` places: it draws the count `num` first,
/// then the candidates `cands`, and keeps `rooms` of them.
pub open spec fn drawn_rooms(
    seed: u64,
    rooms: Seq<(i32, i32, i32, i32)>,
    cands: Seq<(i32, i32, i32, i32)>,
    num: int,
) -> bool {
    &&& num == stream_usize((seed, Seq::empty()), MIN_ROOMS as int, MAX_ROOMS as int)
    &&& cands == cand_draws(
        seed,
        Seq::<(int, int, int)>::empty().push((1, MIN_ROOMS as int, MAX_ROOMS as int)),
        cands.len(),
    ).0
    &&& placement(rooms, cands, num)
}

proof fn lemma_cand_prefix(seed: u64, d: Seq<(int, int, int)>, n: nat, m: nat)
    requires
        n <= m,
    ensures
        cand_draws(seed, d, n).0.len() == n,
        cand_draws(seed, d, m).0.len() == m,
        cand_draws(seed, d, n).0 == cand_draws(seed, d, m).0.take(n as int),
    decreases m,
{
    if m == 0 {
        assert(cand_draws(seed, d, m).0.take(0) =~= Seq::<(i32, i32, i32, i32)>::empty());
    } else if n == m {
        lemma_cand_prefix(seed, d, (m - 1) as nat, (m - 1) as nat);
        assert(cand_draws(seed, d, m).0.take(n as int) =~= cand_draws(seed, d, m).0);
    } else {
        lemma_cand_prefix(seed, d, n, (m - 1) as nat);
        let prev = cand_draws(seed, d, (m - 1) as nat).0;
        assert(cand_draws(seed, d, m).0.take(n as int) =~= prev.take(n as int));
    }
}

/// Generators seeded alike place the same rooms: the count, the candidates and so the
/// rooms kept depend on the seed alone.
pub proof fn lemma_same_seed_same_rooms(
    seed: u64,
    rooms1: Seq<(i32, i32, i32, i32)>,
    cands1: Seq<(i32, i32, i32, i32)>,
    num1: int,
    rooms2: Seq<(i32, i32, i32, i32)>,
    cands2: Seq<(i32, i32, i32, i32)>,
    num2: int,
)
    requires
        drawn_rooms(seed, rooms1, cands1, num1),
        drawn_rooms(seed, rooms2, cands2, num2),
    ensures
        rooms1 == rooms2,
        cands1 == cands2,
        num1 == num2,
{
    let d = Seq::<(int, int, int)>::empty().push((1, MIN_ROOMS as int, MAX_ROOMS as int));
    if cands1.len() < cands2.len() {
        lemma_cand_prefix(seed, d, cands1.len(), cands2.len());
        assert(cands1 == cands2.take(cands1.len() as int));
        assert(accepted(cands2.take(cands1.len() as int)).len() < num2);
    } else if cands2.len() < cands1.len() {
        lemma_cand_prefix(seed, d, cands2.len(), cands1.len());
        assert(cands2 == cands1.take(cands2.len() as int));
        assert(accepted(cands1.take(cands2.len() as int)).len() < num1);
    } else {
        assert(cands1 == cands2);
    }
}

/// The generator state left after drawing the room count and the candidates `cands` from
/// a fresh generator seeded from `seed`.
pub open spec fn rooms_state(seed: u64, cands: Seq<(i32, i32, i32, i32)>) -> (u64, Seq<(int, int, int)>) {
    (
        seed,
        cand_draws(
            seed,
            Seq::<(int, int, int)>::empty().push((1, MIN_ROOMS as int, MAX_ROOMS as int)),
            cands.len(),
        ).1,
    )
}

/// What generation made of the draws of the generator seeded from `seed`: the rooms
/// `rooms` placed from the candidates `cands` it drew toward the count `num` it drew, laid
/// out on `map` (whose tiles were `base`) around the spawn position `r`, every tile as
/// `laid_tile` says, with `mc[k]` monsters and `ic[k]` items put in room `k`, the new
/// creatures and ground items (numbered from `eid` and `iid`) being those `pop_upto`
/// draws once the rooms are joined.
pub open spec fn generated_world(
    seed: u64,
    base: spec_fn(int, int) -> Tile,
    map: GameMap,
    ents_before: Seq<Entity>,
    ents_after: Seq<Entity>,
    items_before: Seq<GroundItem>,
    items_after: Seq<GroundItem>,
    eid: int,
    iid: int,
    rooms: Seq<(i32, i32, i32, i32)>,
    cands: Seq<(i32, i32, i32, i32)>,
    num: int,
    mc: Seq<int>,
    ic: Seq<int>,
    r: Coord,
) -> bool {
    &&& drawn_rooms(seed, rooms, cands, num)
    &&& generated_layout(map, rooms, r)
    &&& forall|px: int, py: int|
        in_bounds_spec(px, py) ==> #[trigger] map.tile_at(px, py) == laid_tile(
            base,
            rooms,
            rooms_state(seed, cands),
            px,
            py,
        )
    &&& monsters_per_room(ents_before, ents_after, rooms, mc)
    &&& items_per_room(items_before, items_after, rooms, ic)
    &&& creatures_from(ents_after, ents_before.len() as int) == pop_upto(
        join_state(rooms_state(seed, cands), joins(rooms.len() as int)),
        rooms,
        rooms.len() as nat,
        eid,
        iid,
    ).0
    &&& grounds_from(items_after, items_before.len() as int) == pop_upto(
        join_state(rooms_state(seed, cands), joins(rooms.len() as int)),
        rooms,
        rooms.len() as nat,
        eid,
        iid,
    ).1
}

/// Generation from `seed` over the tiles `base` gave `map`, the creatures `ents_after`
/// (after `ents_before`), the ground items `items_after` (after `items_before`) and the
/// spawn position `r`, for some rooms, candidates, count and per-room numbers.
pub open spec fn generated_from(
    seed: u64,
    base: spec_fn(int, int) -> Tile,
    map: GameMap,
    ents_before: Seq<Entity>,
    ents_after: Seq<Entity>,
    items_before: Seq<GroundItem>,
    items_after: Seq<GroundItem>,
    eid: int,
    iid: int,
    r: Coord,
) -> bool {
    exists|
        rooms: Seq<(i32, i32, i32, i32)>,
        cands: Seq<(i32, i32, i32, i32)>,
        num: int,
        mc: Seq<int>,
        ic: Seq<int>,
    |
        #[trigger] generated_world(
            seed,
            base,
            map,
            ents_before,
            ents_after,
            items_before,
            items_after,
            eid,
            iid,
            rooms,
            cands,
            num,
            mc,
            ic,
            r,
        )
}

/// What generation gives over tiles `b1` it gives over tiles `b2` that agree with them on
/// the map.
pub proof fn lemma_rebase(
    seed: u64,
    b1: spec_fn(int, int) -> Tile,
    b2: spec_fn(int, int) -> Tile,
    map: GameMap,
    ents_before: Seq<Entity>,
    ents_after: Seq<Entity>,
    items_before: Seq<GroundItem>,
    items_after: Seq<GroundItem>,
    eid: int,
    iid: int,
    r: Coord,
)
    requires
        generated_from(seed, b1, map, ents_before, ents_after, items_before, items_after, eid, iid, r),
        forall|px: int, py: int| in_bounds_spec(px, py) ==> #[trigger] b1(px, py) == b2(px, py),
    ensures
        generated_from(seed, b2, map, ents_before, ents_after, items_before, items_after, eid, iid, r),
{
    let (rooms, cands, num, mc, ic) = choose|
        rooms: Seq<(i32, i32, i32, i32)>,
        cands: Seq<(i32, i32, i32, i32)>,
        num: int,
        mc: Seq<int>,
        ic: Seq<int>,
    |
        #[trigger] generated_world(
            seed,
            b1,
            map,
            ents_before,
            ents_after,
            items_before,
            items_after,
            eid,
            iid,
            rooms,
            cands,
            num,
            mc,
            ic,
            r,
        );
    lemma_laid_agree(b1, b2, rooms, rooms_state(seed, cands));
    assert(generated_world(
        seed,
        b2,
        map,
        ents_before,
        ents_after,
        items_before,
        items_after,
        eid,
        iid,
        rooms,
        cands,
        num,
        mc,
        ic,
        r,
    ));
}

/// Generation is a function of the seed: from one seed over tiles that agree on the map,
/// with creatures and items numbered from the same points, it lays out maps that agree
/// on every tile around the same spawn position, and adds the same creatures and the
/// same ground items, in the same order.
pub proof fn lemma_same_seed_same_world(
    seed: u64,
    eid: int,
    iid: int,
    b1: spec_fn(int, int) -> Tile,
    map1: GameMap,
    eb1: Seq<Entity>,
    ea1: Seq<Entity>,
    ib1: Seq<GroundItem>,
    ia1: Seq<GroundItem>,
    r1: Coord,
    b2: spec_fn(int, int) -> Tile,
    map2: GameMap,
    eb2: Seq<Entity>,
    ea2: Seq<Entity>,
    ib2: Seq<GroundItem>,
    ia2: Seq<GroundItem>,
    r2: Coord,
)
    requires
        generated_from(seed, b1, map1, eb1, ea1, ib1, ia1, eid, iid, r1),
        generated_from(seed, b2, map2, eb2, ea2, ib2, ia2, eid, iid, r2),
        forall|px: int, py: int| in_bounds_spec(px, py) ==> #[trigger] b1(px, py) == b2(px, py),
    ensures
        r1 == r2,
        forall|px: int, py: int| in_bounds_spec(px, py) ==> #[trigger] map1.tile_at(px, py) == map2.tile_at(px, py),
        creatures_from(ea1, eb1.len() as int) == creatures_from(ea2, eb2.len() as int),
        grounds_from(ia1, ib1.len() as int) == grounds_from(ia2, ib2.len() as int),
{
    let (rooms1, cands1, num1, mc1, ic1) = choose|
        rooms: Seq<(i32, i32, i32, i32)>,
        cands: Seq<(i32, i32, i32, i32)>,
        num: int,
        mc: Seq<int>,
        ic: Seq<int>,
    | #[trigger] generated_world(seed, b1, map1, eb1, ea1, ib1, ia1, eid, iid, rooms, cands, num, mc, ic, r1);
    let (rooms2, cands2, num2, mc2, ic2) = choose|
        rooms: Seq<(i32, i32, i32, i32)>,
        cands: Seq<(i32, i32, i32, i32)>,
        num: int,
        mc: Seq<int>,
        ic: Seq<int>,
    | #[trigger] generated_world(seed, b2, map2, eb2, ea2, ib2, ia2, eid, iid, rooms, cands, num, mc, ic, r2);
    lemma_same_seed_same_rooms(seed, rooms1, cands1, num1, rooms2, cands2, num2);
    lemma_laid_agree(b1, b2, rooms1, rooms_state(seed, cands1));
    assert forall|px: int, py: int| in_bounds_spec(px, py) implies #[trigger] map1.tile_at(px, py)
        == map2.tile_at(px, py) by {
        assert(map1.tile_at(px, py) == laid_tile(b1, rooms1, rooms_state(seed, cands1), px, py));
        assert(map2.tile_at(px, py) == laid_tile(b2, rooms2, rooms_state(seed, cands2), px, py));
    }
}

/// The seed of the generator of sub-world `sw_id`: the world seed plus each coordinate
/// of the id (as a u64) times its odd constant, all modulo 2^64.
pub open spec fn sub_world_seed_spec(world_seed: u64, sw_id: (i64, i64)) -> int {
    let m: int = 0x1_0000_0000_0000_0000;
    let a = ((sw_id.0 as u64) as int * 6364136223846793005) % m;
    let b = ((sw_id.1 as u64) as int * 1442695040888963407) % m;
    ((world_seed as int + a) % m + b) % m
}

/// The seed of the generator of sub-world `sw_id` in the world of `world_seed`.
pub fn sub_world_seed(world_seed: u64, sw_id: (i64, i64)) -> (r: u64)
    ensures
        r as int == sub_world_seed_spec(world_seed, sw_id),
{
    world_seed.wrapping_add((sw_id.0 as u64).wrapping_mul(6364136223846793005)).wrapping_add(
        (sw_id.1 as u64).wrapping_mul(1442695040888963407),
    )
}

/// Generate a sub-world from the world seed and its id: rooms of floor joined by
/// corridors (some with closed doors), monsters and items in the rooms, stairs down at
/// the centre of the first room (the returned spawn position) and stairs up beside the
/// centre of the last one. The generator is seeded with `sub_world_seed(world_seed,
/// sw_id)`; the rooms, every tile of the map (`laid_tile`) and the creatures and ground
/// items added (`pop_upto`) follow from that seed's draws.
pub fn generate_sub_world(
    map: &mut GameMap,
    entities: &mut EntityManager,
    items: &mut ItemManager,
    world_seed: u64,
    sw_id: (i64, i64),
) -> (r: Coord)
    requires
        old(map).wf(),
        old(entities).wf(),
        old(items).wf(),
        old(entities).next_id_view() <= u32::MAX - 100,
        old(items).next_id_view() <= u32::MAX - 100,
    ensures
        final(map).wf(),
        final(entities).wf(),
        final(items).wf(),
        final(map).explored_view() == old(map).explored_view(),
        border_kept(*old(map), *final(map)),
        inner(r),
        final(map).tile_at(r.x as int, r.y as int) == fresh_tile(TileType::StairsDown),
        monsters_added(old(entities).view_seq(), final(entities).view_seq()),
        items_added(old(items).view_seq(), final(items).view_seq()),
        final(entities).next_id_view() <= old(entities).next_id_view() + 3 * MAX_ROOMS,
        generated_from(
            sub_world_seed_spec(world_seed, sw_id) as u64,
            tile_fn(*old(map)),
            *final(map),
            old(entities).view_seq(),
            final(entities).view_seq(),
            old(items).view_seq(),
            final(items).view_seq(),
            old(entities).next_id_view() as int,
            old(items).next_id_view() as int,
            r,
        ),
{
    let ghost e_start = entities.view_seq();
    let ghost i_start = items.view_seq();
    let ghost eid0 = entities.next_id_view();
    let ghost iid0 = items.next_id_view();
    let seed = sub_world_seed(world_seed, sw_id);
    let mut rng = seeded_rng(seed);
    let ghost m0 = *map;
    let ghost rng0 = rng;
    let rooms = place_rooms(map, &mut rng);
    let ghost rng1 = rng;
    let ghost m1 = *map;
    connect_rooms(map, &mut rng, &rooms);
    let ghost m2 = *map;
    populate(entities, items, &mut rng, &rooms);
    let (sx, sy, sw, sh) = rooms[0];
    assert(room_ok(rooms@[0]));
    let down = Coord::new(sx + sw / 2, sy + sh / 2);
    map.set_tile(down.x, down.y, Tile::new(TileType::StairsDown));
    let ghost m3 = *map;
    proof {
        lemma_new_tile_properties(TileType::Floor);
        lemma_new_tile_properties(TileType::StairsDown);
        lemma_new_tile_properties(TileType::StairsUp);
        assert forall|k: int, px: int, py: int|
            #![trigger rooms@[k], m1.tile_at(px, py)]
            0 <= k < rooms@.len() && in_bounds_spec(px, py) && in_room(rooms@[k], px, py)
                implies open_or_door(m1.tile_at(px, py)) by {
            assert(m1.tile_at(px, py) == fresh_tile(TileType::Floor));
        }
        lemma_digs_keeps(m1, m2);
        lemma_open_keep_first(m1, m2, rooms@);
        lemma_set_walkable_keeps(m2, m3, down.x as int, down.y as int, fresh_tile(TileType::StairsDown));
        lemma_open_keep(m2, m3, rooms@);
        lemma_border_trans(m0, m1, m2);
        lemma_set_inner_keeps_border(m2, *map, down.x as int, down.y as int);
        lemma_border_trans(m0, m2, m3);
        crate::map::lemma_cell_index_bounds(down.x as int, down.y as int);
    }
    if rooms.len() > 1 {
        let last = rooms.len() - 1;
        let (lx, ly, lw, lh) = rooms[last];
        assert(room_ok(rooms@[last as int]));
        assert(!rooms_collide(rooms@[last as int], rooms@[0]));
        let ux = lx + lw / 2 + 1;
        let uy = ly + lh / 2;
        map.set_tile(ux, uy, Tile::new(TileType::StairsUp));
        proof {
            lemma_set_walkable_keeps(m3, *map, ux as int, uy as int, fresh_tile(TileType::StairsUp));
            lemma_open_keep(m3, *map, rooms@);
            assert(rooms@.last() == rooms@[last as int]);
            lemma_set_inner_keeps_border(m3, *map, ux as int, uy as int);
            lemma_border_trans(m0, m3, *map);
            crate::map::lemma_cell_index_bounds(ux as int, uy as int);
            if crate::map::cell_index(ux as int, uy as int) == crate::map::cell_index(
                down.x as int,
                down.y as int,
            ) {
                crate::map::lemma_cell_index_injective(ux as int, uy as int, down.x as int, down.y as int);
            }
        }
    }
    proof {
        assert(generated_layout(*map, rooms@, down));
        let (cands, num) = choose|cands: Seq<(i32, i32, i32, i32)>, num: int|
            #[trigger] placement(rooms@, cands, num) && placement_drawn(cands, num, rng0@, rng1@);
        let (mc, ic) = choose|mc: Seq<int>, ic: Seq<int>|
            #![trigger monsters_per_room(e_start, entities.view_seq(), rooms@, mc), items_per_room(i_start, items.view_seq(), rooms@, ic)]
            monsters_per_room(e_start, entities.view_seq(), rooms@, mc) && items_per_room(
                i_start,
                items.view_seq(),
                rooms@,
                ic,
            );
        assert(sub_world_seed_spec(world_seed, sw_id) as u64 == seed);
        assert(rng1@ == rooms_state(seed, cands));
        lemma_laid_out(m0, m1, m2, m3, *map, rooms@, rng1@);
        assert(generated_world(
            seed,
            tile_fn(m0),
            *map,
            e_start,
            entities.view_seq(),
            i_start,
            items.view_seq(),
            eid0 as int,
            iid0 as int,
            rooms@,
            cands,
            num,
            mc,
            ic,
            down,
        ));
    }
    down
}

proof fn lemma_set_inner_keeps_border(before: GameMap, after: GameMap, x: int, y: int)
    requires
        before.wf(),
        2 <= x < 509,
        2 <= y < 509,
        after.tiles_view().len() == before.tiles_view().len(),
        forall|i: int|
            0 <= i < before.tiles_view().len() && i != crate::map::cell_index(x, y) ==> #[trigger] after.tiles_view()[i]
                == before.tiles_view()[i],
    ensures
        border_kept(before, after),
{
    assert forall|px: int, py: int|
        in_bounds_spec(px, py) && !(2 <= px < 509 && 2 <= py < 509) implies #[trigger] after.tile_at(
        px,
        py,
    ) == before.tile_at(px, py) by {
        crate::map::lemma_cell_index_bounds(px, py);
        if crate::map::cell_index(px, py) == crate::map::cell_index(x, y) {
            crate::map::lemma_cell_index_injective(px, py, x, y);
        }
    }
}

} // verus!
