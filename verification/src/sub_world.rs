use vstd::prelude::*;
use vstd::string::*;

use crate::combat::{attack_outcome, get_entity_stats, melee_attack, stats_for};
use crate::entity::{
    at_id, entity_code, has_id, index_of_id, lemma_index_of_id, moved_seq, removed_seq, Entity,
    EntityManager, EntityType,
};
use crate::ai::{ai_action, ai_decision, dir_action, fallback_result};
use crate::pathfinding::{cheapest_within, chebyshev, is_free, occupied, path_cost, valid_path};
use crate::prediction::move_delta;
use crate::fov::{all_within, behind_wall, clear_around, compute_fov, disk_seen, fov_fits, fov_seq, neighbours_seen};
use crate::item::{ground_summary, lies_at, GroundItem, ItemManager};
use crate::map::{fresh_tile, in_bounds_spec, GameMap};
use crate::messagelog::{combat_color, combat_text, death_text, log_after_add, newest_first, MessageLog};
use crate::text::{decimal, push_decimal, push_str};
use crate::messages::{ActionType, ServerMessage};
use crate::tile::{fg_color_spec, type_code_spec, Tile, TileType};
use crate::types::{strip_of, Coord, EntityData, ItemStack, LogEntry, TileData, SUBWORLD_SIZE};
use crate::visible::VisibleSet;
use crate::save::{saves, SavedMap};
use crate::worldgen::{
    all_walls, generate_sub_world, generated_from, generated_monster, inner, items_added,
    lemma_rebase, monsters_added, sub_world_seed_spec, tile_fn,
};

verus! {

/// How far a player sees.
pub const VIEW_RADIUS: i32 = 15;

/// A sub-world id in the range that i32 global coordinates reach.
pub open spec fn sw_id_ok(id: (i64, i64)) -> bool {
    &&& -4194304 <= id.0 < 4194304
    &&& -4194304 <= id.1 < 4194304
}

/// The offset of strip `s` of the global grid, computed as the protocol does: `s * 512`
/// cut to 32 bits.
pub open spec fn strip_offset(s: int) -> int {
    ((s * (SUBWORLD_SIZE as int)) as i32) as int
}

/// `s * 512` fits in an i64.
pub open spec fn offset_fits(s: int) -> bool {
    i64::MIN <= s * (SUBWORLD_SIZE as int) <= i64::MAX
}

/// The global coordinate of local coordinate `v` in strip `s` of the grid.
pub open spec fn global_of(v: int, s: int) -> int {
    v + strip_offset(s)
}

/// Inside the range of strips that i32 coordinates reach, the offset is exact.
pub proof fn lemma_strip_offset(s: int)
    requires
        -4194304 <= s < 4194304,
    ensures
        strip_offset(s) == s * 512,
        offset_fits(s),
{
    assert(i32::MIN <= s * 512 <= i32::MAX);
}

/// Whether `id` lies in the range of sub-worlds that i32 global coordinates reach.
pub fn sw_id_in_range(id: (i64, i64)) -> (r: bool)
    ensures
        r == sw_id_ok(id),
{
    -4194304 <= id.0 && id.0 < 4194304 && -4194304 <= id.1 && id.1 < 4194304
}

/// Convert a position local to sub-world `sw_id` into a global position.
pub fn local_to_global(local: Coord, sw_id: (i64, i64)) -> (r: Coord)
    requires
        offset_fits(sw_id.0 as int),
        offset_fits(sw_id.1 as int),
        i32::MIN <= global_of(local.x as int, sw_id.0 as int) <= i32::MAX,
        i32::MIN <= global_of(local.y as int, sw_id.1 as int) <= i32::MAX,
    ensures
        r.x == global_of(local.x as int, sw_id.0 as int),
        r.y == global_of(local.y as int, sw_id.1 as int),
{
    let ox: i64 = sw_id.0 * 512;
    let oy: i64 = sw_id.1 * 512;
    Coord::new(local.x + ox as i32, local.y + oy as i32)
}

/// Split a global position into its sub-world and the position local to it.
pub fn global_to_local(global: Coord) -> (r: ((i64, i64), Coord))
    ensures
        r.0.0 == strip_of(global.x as int),
        r.0.1 == strip_of(global.y as int),
        sw_id_ok(r.0),
        in_bounds_spec(r.1.x as int, r.1.y as int),
        global_of(r.1.x as int, r.0.0 as int) == global.x,
        global_of(r.1.y as int, r.0.1 as int) == global.y,
{
    let sw_id = global.sub_world_id();
    proof {
        lemma_strip_bounds(global.x as int);
        lemma_strip_bounds(global.y as int);
        lemma_strip_offset(sw_id.0 as int);
        lemma_strip_offset(sw_id.1 as int);
    }
    let ox: i64 = sw_id.0 * 512;
    let oy: i64 = sw_id.1 * 512;
    let local = Coord::new(global.x - ox as i32, global.y - oy as i32);
    (sw_id, local)
}

proof fn lemma_strip_bounds(v: int)
    requires
        i32::MIN <= v <= i32::MAX,
    ensures
        -4194304 <= strip_of(v) < 4194304,
        0 <= v - strip_of(v) * 512 < 512,
{
    assert(0 <= v - strip_of(v) * 512 < 512) by (nonlinear_arith)
        requires
            strip_of(v) == v / 512,
    ;
    assert(-4194304 <= strip_of(v) < 4194304) by (nonlinear_arith)
        requires
            strip_of(v) == v / 512,
            i32::MIN <= v <= i32::MAX,
    ;
}

/// Converting a global position to local form and back gives the same position.
pub proof fn lemma_global_local_roundtrip(g: Coord)
    ensures
        ({
            let s = (strip_of(g.x as int), strip_of(g.y as int));
            let lx = g.x - s.0 * 512;
            let ly = g.y - s.1 * 512;
            &&& 0 <= lx < 512
            &&& 0 <= ly < 512
            &&& global_of(lx, s.0) == g.x
            &&& global_of(ly, s.1) == g.y
            &&& -4194304 <= s.0 < 4194304
            &&& -4194304 <= s.1 < 4194304
        }),
{
    lemma_strip_bounds(g.x as int);
    lemma_strip_bounds(g.y as int);
    lemma_strip_offset(strip_of(g.x as int));
    lemma_strip_offset(strip_of(g.y as int));
}

/// A local position on the map of a sub-world in range comes back unchanged from a trip
/// through global coordinates.
pub proof fn lemma_local_global_roundtrip(l: Coord, id: (i64, i64))
    requires
        sw_id_ok(id),
        in_bounds_spec(l.x as int, l.y as int),
    ensures
        i32::MIN <= global_of(l.x as int, id.0 as int) <= i32::MAX,
        i32::MIN <= global_of(l.y as int, id.1 as int) <= i32::MAX,
        strip_of(global_of(l.x as int, id.0 as int)) == id.0,
        strip_of(global_of(l.y as int, id.1 as int)) == id.1,
{
    lemma_strip_offset(id.0 as int);
    lemma_strip_offset(id.1 as int);
    let gx = global_of(l.x as int, id.0 as int);
    let gy = global_of(l.y as int, id.1 as int);
    assert(gx / 512 == id.0) by (nonlinear_arith)
        requires
            gx == l.x + id.0 * 512,
            0 <= l.x < 512,
    ;
    assert(gy / 512 == id.1) by (nonlinear_arith)
        requires
            gy == l.y + id.1 * 512,
            0 <= l.y < 512,
    ;
}

/// Per-player state kept by a sub-world: position, vital statistics, whether its
/// connection is still up, and the sequence number of the last action it applied.
#[derive(Debug, Clone, Copy, PartialEq, Eq, Structural)]
pub struct PlayerState {
    pub pos: Coord,
    pub hp: i32,
    pub max_hp: i32,
    pub stamina: i32,
    pub hunger: i32,
    pub thirst: i32,
    pub connected: bool,
    pub last_seq: u32,
}

/// A tile as a client sees it, at the global position of local cell `c`.
pub open spec fn tile_data_of(t: Tile, c: Coord, id: (i64, i64)) -> TileData {
    TileData {
        pos: Coord {
            x: global_of(c.x as int, id.0 as int) as i32,
            y: global_of(c.y as int, id.1 as int) as i32,
        },
        tile_type: type_code_spec(t.tile_type),
        flags: t.flags,
        fg_color: fg_color_spec(t.tile_type),
        bg_color: 0,
    }
}

/// The tiles of the in-bounds cells of `cells`, as clients see them, in order.
pub open spec fn tiles_of(map: GameMap, cells: Seq<Coord>, id: (i64, i64)) -> Seq<TileData> {
    cells.filter(|c: Coord| in_bounds_spec(c.x as int, c.y as int)).map_values(
        |c: Coord| tile_data_of(map.tile_at(c.x as int, c.y as int), c, id),
    )
}

/// An entity as a client sees it.
pub open spec fn entity_data_of(e: Entity, id: (i64, i64)) -> EntityData {
    EntityData {
        id: e.id,
        entity_type: entity_code(e.entity_type),
        name: e.name,
        pos: Coord {
            x: global_of(e.pos.x as int, id.0 as int) as i32,
            y: global_of(e.pos.y as int, id.1 as int) as i32,
        },
        hp: e.hp,
        max_hp: e.max_hp,
        is_player: e.entity_type == EntityType::Player,
    }
}

/// The entities standing on cells of `cells`, as clients see them, in order.
pub open spec fn entities_seen(ents: Seq<Entity>, cells: Seq<Coord>, id: (i64, i64)) -> Seq<
    EntityData,
> {
    ents.filter(|e: Entity| cells.contains(e.pos)).map_values(|e: Entity| entity_data_of(e, id))
}

/// The ground items lying on cells of `cells`, summarised, in order.
pub open spec fn items_seen(items: Seq<GroundItem>, cells: Seq<Coord>) -> Seq<(Coord, ItemStack)> {
    items.map_values(|g: GroundItem| ground_summary(g)).filter(
        |p: (Coord, ItemStack)| cells.contains(p.0),
    )
}

/// The explored flags of the 31 by 31 window centred on (cx, cy), row by row; cells off
/// the map count as unexplored.
pub open spec fn explored_window(map: GameMap, cx: int, cy: int) -> Seq<bool> {
    Seq::new(
        961,
        |i: int|
            {
                let x = cx + (i % 31) - 15;
                let y = cy + (i / 31) - 15;
                in_bounds_spec(x, y) && map.explored_at(x, y)
            },
    )
}


/// The explored layer after marking every in-bounds cell of `cells` explored.
pub open spec fn explored_after(old: Seq<bool>, cells: Seq<Coord>) -> Seq<bool> {
    Seq::new(
        old.len(),
        |i: int|
            old[i] || exists|c: Coord|
                cells.contains(c) && in_bounds_spec(c.x as int, c.y as int)
                    && crate::map::cell_index(c.x as int, c.y as int) == i,
    )
}

fn tiles_for(map: &GameMap, cells: &[Coord], id: (i64, i64)) -> (r: Vec<TileData>)
    requires
        map.wf(),
        sw_id_ok(id),
    ensures
        r@ == tiles_of(*map, cells@, id),
{
    let ghost pred = |c: Coord| in_bounds_spec(c.x as int, c.y as int);
    let ghost f = |c: Coord| tile_data_of(map.tile_at(c.x as int, c.y as int), c, id);
    let mut r: Vec<TileData> = Vec::new();
    let mut i: usize = 0;
    while i < cells.len()
        invariant
            map.wf(),
            sw_id_ok(id),
            i <= cells@.len(),
            pred == (|c: Coord| in_bounds_spec(c.x as int, c.y as int)),
            f == (|c: Coord| tile_data_of(map.tile_at(c.x as int, c.y as int), c, id)),
            r@ == cells@.take(i as int).filter(pred).map_values(f),
        decreases cells@.len() - i,
    {
        let c = cells[i];
        proof {
            reveal_with_fuel(Seq::<_>::filter, 1);
            assert(cells@.take(i + 1).drop_last() =~= cells@.take(i as int));
        }
        if let Some(tile) = map.get_tile(c.x, c.y) {
            let g = local_to_global(c, id);
            r.push(
                TileData {
                    pos: g,
                    tile_type: tile.tile_type.code(),
                    flags: tile.flags,
                    fg_color: tile.fg_color(),
                    bg_color: tile.bg_color(),
                },
            );
        }
        i = i + 1;
        assert(r@ =~= cells@.take(i as int).filter(pred).map_values(f));
    }
    assert(cells@.take(i as int) =~= cells@);
    r
}

fn entities_for(ents: &[Entity], vis: &VisibleSet, id: (i64, i64)) -> (r: Vec<EntityData>)
    requires
        sw_id_ok(id),
        forall|i: int|
            0 <= i < ents@.len() && vis.cells_view().contains(#[trigger] ents@[i].pos) ==> i32::MIN
                <= global_of(ents@[i].pos.x as int, id.0 as int) <= i32::MAX && i32::MIN
                <= global_of(ents@[i].pos.y as int, id.1 as int) <= i32::MAX,
    ensures
        r@ == entities_seen(ents@, vis.cells_view(), id),
{
    let ghost cells = vis.cells_view();
    let ghost pred = |e: Entity| cells.contains(e.pos);
    let ghost f = |e: Entity| entity_data_of(e, id);
    let mut r: Vec<EntityData> = Vec::new();
    let mut i: usize = 0;
    while i < ents.len()
        invariant
            sw_id_ok(id),
            i <= ents@.len(),
            cells == vis.cells_view(),
            pred == (|e: Entity| cells.contains(e.pos)),
            f == (|e: Entity| entity_data_of(e, id)),
            forall|k: int|
                0 <= k < ents@.len() && vis.cells_view().contains(#[trigger] ents@[k].pos) ==> i32::MIN
                    <= global_of(ents@[k].pos.x as int, id.0 as int) <= i32::MAX && i32::MIN
                    <= global_of(ents@[k].pos.y as int, id.1 as int) <= i32::MAX,
            r@ == ents@.take(i as int).filter(pred).map_values(f),
        decreases ents@.len() - i,
    {
        let e = &ents[i];
        proof {
            reveal_with_fuel(Seq::<_>::filter, 1);
            assert(ents@.take(i + 1).drop_last() =~= ents@.take(i as int));
        }
        if vis.contains(&e.pos) {
            let g = local_to_global(e.pos, id);
            r.push(
                EntityData {
                    id: e.id,
                    entity_type: e.entity_type.to_u8(),
                    name: e.name.clone(),
                    pos: g,
                    hp: e.hp,
                    max_hp: e.max_hp,
                    is_player: e.entity_type == EntityType::Player,
                },
            );
        }
        i = i + 1;
        assert(r@ =~= ents@.take(i as int).filter(pred).map_values(f));
    }
    assert(ents@.take(i as int) =~= ents@);
    r
}

fn items_for(all: Vec<(Coord, ItemStack)>, vis: &VisibleSet) -> (r: Vec<(Coord, ItemStack)>)
    ensures
        r@ == all@.filter(|p: (Coord, ItemStack)| vis.cells_view().contains(p.0)),
{
    let ghost cells = vis.cells_view();
    let ghost pred = |p: (Coord, ItemStack)| cells.contains(p.0);
    let mut r: Vec<(Coord, ItemStack)> = Vec::new();
    let mut i: usize = 0;
    while i < all.len()
        invariant
            i <= all@.len(),
            cells == vis.cells_view(),
            pred == (|p: (Coord, ItemStack)| cells.contains(p.0)),
            r@ == all@.take(i as int).filter(pred),
        decreases all@.len() - i,
    {
        let p = all[i];
        proof {
            reveal_with_fuel(Seq::<_>::filter, 1);
            assert(all@.take(i + 1).drop_last() =~= all@.take(i as int));
        }
        if vis.contains(&p.0) {
            r.push(p);
        }
        i = i + 1;
        assert(r@ =~= all@.take(i as int).filter(pred));
    }
    assert(all@.take(i as int) =~= all@);
    r
}

fn explored_window_for(map: &GameMap, cx: i32, cy: i32) -> (r: Vec<bool>)
    requires
        map.wf(),
        fov_fits(Coord { x: cx, y: cy }, VIEW_RADIUS as int),
    ensures
        r@ == explored_window(*map, cx as int, cy as int),
{
    proof {
        map.lemma_explored_storage();
    }
    let mut r: Vec<bool> = Vec::new();
    let mut dy: i32 = -VIEW_RADIUS;
    while dy <= VIEW_RADIUS
        invariant
            map.wf(),
            map.explored_view() == map.explored@,
            fov_fits(Coord { x: cx, y: cy }, VIEW_RADIUS as int),
            -15 <= dy <= 16,
            r@.len() == (dy + 15) * 31,
            forall|i: int| 0 <= i < r@.len() ==> #[trigger] r@[i] == explored_window(*map, cx as int, cy as int)[i],
        decreases 16 - dy,
    {
        let mut dx: i32 = -VIEW_RADIUS;
        while dx <= VIEW_RADIUS
            invariant
                map.wf(),
                map.explored_view() == map.explored@,
                fov_fits(Coord { x: cx, y: cy }, VIEW_RADIUS as int),
                -15 <= dy <= 15,
                -15 <= dx <= 16,
                r@.len() == (dy + 15) * 31 + (dx + 15),
                forall|i: int| 0 <= i < r@.len() ==> #[trigger] r@[i] == explored_window(*map, cx as int, cy as int)[i],
            decreases 16 - dx,
        {
            let x = cx + dx;
            let y = cy + dy;
            let ghost k = r@.len() as int;
            proof {
                assert(k % 31 == dx + 15) by (nonlinear_arith)
                    requires
                        k == (dy + 15) * 31 + (dx + 15),
                        0 <= dx + 15 < 31,
                        0 <= dy + 15,
                ;
                assert(k / 31 == dy + 15) by (nonlinear_arith)
                    requires
                        k == (dy + 15) * 31 + (dx + 15),
                        0 <= dx + 15 < 31,
                        0 <= dy + 15,
                ;
            }
            if map.in_bounds(x, y) {
                let v = map.explored[map.index(x, y)];
                r.push(v);
            } else {
                r.push(false);
            }
            assert(r@[k] == explored_window(*map, cx as int, cy as int)[k]);
            dx = dx + 1;
        }
        dy = dy + 1;
    }
    assert(r@ =~= explored_window(*map, cx as int, cy as int));
    r
}

} // verus!
verus! {

/// A transfer from strip `s` by one level keeps the offsets of its neighbours in range.
proof fn lemma_transfer_offset(s: int)
    requires
        -4194305 <= s <= 4194304,
    ensures
        offset_fits(s),
        i32::MIN <= 256 + strip_offset(s) <= i32::MAX,
{
    if s == 4194304 {
        let v: i64 = 2147483648;
        assert(v as i32 == -2147483648i32) by (bit_vector)
            requires
                v == 2147483648i64,
        ;
        assert(strip_offset(s) == v as i32);
    } else if s == -4194305 {
        let v: i64 = -2147484160i64;
        assert(v as i32 == 2147483136i32) by (bit_vector)
            requires
                v == -2147484160i64,
        ;
        assert(strip_offset(s) == v as i32);
    } else {
        lemma_strip_offset(s);
    }
}


/// `k` is the position of the player numbered `id` in `ps`.
pub open spec fn player_at(ps: Seq<(u32, PlayerState)>, id: u32, k: int) -> bool {
    0 <= k < ps.len() && ps[k].0 == id
}

/// The player numbered `id` is in `ps`.
pub open spec fn has_player(ps: Seq<(u32, PlayerState)>, id: u32) -> bool {
    exists|k: int| player_at(ps, id, k)
}

/// No player number occurs twice in `ps`.
pub open spec fn players_unique(ps: Seq<(u32, PlayerState)>) -> bool {
    forall|i: int, j: int| 0 <= i < j < ps.len() ==> ps[i].0 != ps[j].0
}

/// The position of the player numbered `id` in `ps`, when there is one.
pub open spec fn player_index(ps: Seq<(u32, PlayerState)>, id: u32) -> int {
    choose|k: int| player_at(ps, id, k)
}

/// The state of the player numbered `id`, if `ps` holds one.
pub open spec fn find_player(ps: Seq<(u32, PlayerState)>, id: u32) -> Option<PlayerState> {
    if has_player(ps, id) {
        Some(ps[player_index(ps, id)].1)
    } else {
        None
    }
}

/// `ps` with the player numbered `id` in state `st`: replaced in place when present,
/// added at the end otherwise.
pub open spec fn set_player(ps: Seq<(u32, PlayerState)>, id: u32, st: PlayerState) -> Seq<
    (u32, PlayerState),
> {
    if has_player(ps, id) {
        ps.update(player_index(ps, id), (id, st))
    } else {
        ps.push((id, st))
    }
}

/// `ps` without the player numbered `id`.
pub open spec fn drop_player(ps: Seq<(u32, PlayerState)>, id: u32) -> Seq<(u32, PlayerState)> {
    if has_player(ps, id) {
        ps.remove(player_index(ps, id))
    } else {
        ps
    }
}

/// `after` is the log `before` (of capacity `cap`) with one more line of this text,
/// colour and turn.
pub open spec fn logged(
    before: Seq<LogEntry>,
    after: Seq<LogEntry>,
    cap: nat,
    text: Seq<char>,
    color: u32,
    turn: u64,
) -> bool {
    exists|e: LogEntry|
        e.text@ == text && e.color == color && e.turn == turn && #[trigger] log_after_add(
            before,
            e,
            cap,
        ) == after
}

/// How players are named in the log and on the map.
pub open spec fn player_name(pid: u32) -> Seq<char> {
    "Player_"@ + decimal(pid as int)
}

/// How `{:?}` prints a sub-world id.
pub open spec fn id_text(id: (i64, i64)) -> Seq<char> {
    "("@ + decimal(id.0 as int) + ", "@ + decimal(id.1 as int) + ")"@
}

/// The log line of a player leaving a sub-world.
pub open spec fn left_text(pid: u32, id: (i64, i64)) -> Seq<char> {
    "Player "@ + decimal(pid as int) + " left sub-world "@ + id_text(id)
}

/// The log line of a player taking the stairs to another sub-world.
pub open spec fn transferred_text(pid: u32, to: (i64, i64)) -> Seq<char> {
    "Player "@ + decimal(pid as int) + " transferred to "@ + id_text(to)
}

fn player_name_string(pid: u32) -> (r: String)
    ensures
        r@ == player_name(pid),
{
    let mut t = String::new();
    proof {
        reveal_strlit("Player_");
    }
    push_str(&mut t, "Player_");
    push_decimal(&mut t, pid as i64);
    t
}

fn push_id(t: &mut String, id: (i64, i64))
    ensures
        final(t)@ == old(t)@ + id_text(id),
{
    proof {
        reveal_strlit("(");
        reveal_strlit(", ");
        reveal_strlit(")");
    }
    push_str(t, "(");
    push_decimal(t, id.0);
    push_str(t, ", ");
    push_decimal(t, id.1);
    push_str(t, ")");
    assert(t@ =~= old(t)@ + id_text(id));
}

/// A player just listed is found with the state it was listed with; a player taken off
/// the list is no longer found.
pub proof fn lemma_set_then_find(ps: Seq<(u32, PlayerState)>, id: u32, st: PlayerState)
    requires
        players_unique(ps),
    ensures
        players_unique(set_player(ps, id, st)),
        find_player(set_player(ps, id, st), id) == Some(st),
        !has_player(drop_player(ps, id), id),
{
    let s2 = set_player(ps, id, st);
    if has_player(ps, id) {
        let k = player_index(ps, id);
        assert(player_at(ps, id, k));
        assert forall|i: int, j: int| 0 <= i < j < s2.len() implies s2[i].0 != s2[j].0 by {
            assert(s2[i].0 == ps[i].0 && s2[j].0 == ps[j].0);
        }
        assert(player_at(s2, id, k));
        lemma_player_index(s2, id, k);
        let d = drop_player(ps, id);
        assert forall|q: int| !player_at(d, id, q) by {
            if 0 <= q < d.len() {
                if q < k {
                    assert(d[q] == ps[q]);
                } else {
                    assert(d[q] == ps[q + 1]);
                }
            }
        }
    } else {
        assert forall|i: int, j: int| 0 <= i < j < s2.len() implies s2[i].0 != s2[j].0 by {
            if j == ps.len() {
                assert(!player_at(ps, id, i));
            }
        }
        assert(player_at(s2, id, ps.len() as int));
        lemma_player_index(s2, id, ps.len() as int);
    }
}

/// In a list without repeated numbers a player number sits at one position only.
pub proof fn lemma_player_index(ps: Seq<(u32, PlayerState)>, id: u32, k: int)
    requires
        players_unique(ps),
        player_at(ps, id, k),
    ensures
        player_index(ps, id) == k,
{
    let j = player_index(ps, id);
    assert(player_at(ps, id, j));
    if j < k {
        assert(ps[j].0 != ps[k].0);
    } else if k < j {
        assert(ps[k].0 != ps[j].0);
    }
}

/// The state of a player who has just arrived: at `pos`, every statistic at 100,
/// connected, no action applied yet.
pub open spec fn fresh_player(pos: Coord) -> PlayerState {
    PlayerState {
        pos,
        hp: 100,
        max_hp: 100,
        stamina: 100,
        hunger: 100,
        thirst: 100,
        connected: true,
        last_seq: 0,
    }
}

/// `ps` with the player numbered `id`, if present, marked as disconnected.
pub open spec fn disconnected(ps: Seq<(u32, PlayerState)>, id: u32) -> Seq<(u32, PlayerState)> {
    match find_player(ps, id) {
        Some(p) => set_player(ps, id, PlayerState { connected: false, ..p }),
        None => ps,
    }
}

/// `ps` with the player numbered `id`, if present, having applied action number `seq`.
pub open spec fn seq_noted(ps: Seq<(u32, PlayerState)>, id: u32, seq: u32) -> Seq<(u32, PlayerState)> {
    match find_player(ps, id) {
        Some(p) => set_player(ps, id, PlayerState { last_seq: seq, ..p }),
        None => ps,
    }
}

/// How many of the first `k` players of `ps` are connected.
pub open spec fn connected_before(ps: Seq<(u32, PlayerState)>, k: int) -> int
    decreases k,
{
    if k <= 0 {
        0
    } else {
        connected_before(ps, k - 1) + if ps[k - 1].1.connected {
            1int
        } else {
            0int
        }
    }
}

proof fn lemma_connected_before_grows(ps: Seq<(u32, PlayerState)>, j: int, k: int)
    requires
        j <= k,
    ensures
        connected_before(ps, j) <= connected_before(ps, k),
    decreases k - j,
{
    if j < k {
        lemma_connected_before_grows(ps, j, k - 1);
    }
}

/// Some player of `ps` is still connected.
pub open spec fn any_connected(ps: Seq<(u32, PlayerState)>) -> bool {
    exists|k: int| 0 <= k < ps.len() && #[trigger] ps[k].1.connected
}

/// `k` is the place of the first connected player of `ps`.
pub open spec fn first_connected(ps: Seq<(u32, PlayerState)>, k: int) -> bool {
    &&& 0 <= k < ps.len()
    &&& ps[k].1.connected
    &&& forall|j: int| 0 <= j < k ==> !(#[trigger] ps[j].1.connected)
}

/// The place of the player the monsters hunt: the first connected one.
pub open spec fn target_index(ps: Seq<(u32, PlayerState)>) -> int {
    choose|k: int| first_connected(ps, k)
}

/// When some player is connected, the first connected one has a place, and it is the
/// only place that is first.
pub proof fn lemma_target_index(ps: Seq<(u32, PlayerState)>, k: int)
    requires
        any_connected(ps) || first_connected(ps, k),
    ensures
        first_connected(ps, target_index(ps)),
        first_connected(ps, k) ==> k == target_index(ps),
{
    let w = choose|w: int| 0 <= w < ps.len() && #[trigger] ps[w].1.connected;
    let w = if first_connected(ps, k) { k } else { w };
    lemma_first_below(ps, w);
    let t = target_index(ps);
    if first_connected(ps, k) && k != t {
        if k < t {
            assert(ps[k].1.connected);
        } else {
            assert(ps[t].1.connected);
        }
    }
}

proof fn lemma_first_below(ps: Seq<(u32, PlayerState)>, w: int)
    requires
        0 <= w < ps.len(),
        ps[w].1.connected,
    ensures
        exists|k: int| first_connected(ps, k),
    decreases w,
{
    if exists|j: int| 0 <= j < w && #[trigger] ps[j].1.connected {
        let j = choose|j: int| 0 <= j < w && #[trigger] ps[j].1.connected;
        lemma_first_below(ps, j);
    } else {
        assert(first_connected(ps, w));
    }
}

/// The global coordinates of `c` in sub-world `id` fit in an i32.
pub open spec fn cell_fits(c: Coord, id: (i64, i64)) -> bool {
    &&& i32::MIN <= global_of(c.x as int, id.0 as int) <= i32::MAX
    &&& i32::MIN <= global_of(c.y as int, id.1 as int) <= i32::MAX
}

/// A position from which a view can be built: the view square stays on the i32 grid and
/// the global coordinates of the position fit.
pub open spec fn spot_ok(c: Coord, id: (i64, i64)) -> bool {
    fov_fits(c, VIEW_RADIUS as int) && cell_fits(c, id)
}

/// What a sub-world keeps true of each creature: it stands on a usable position, is
/// alive, and, unless it is a player, carries a small number.
pub open spec fn entity_ok(e: Entity, id: (i64, i64)) -> bool {
    &&& spot_ok(e.pos, id)
    &&& e.hp > 0
    &&& e.entity_type != EntityType::Player ==> e.id <= 1000
}

/// The cells of the field of view from `origin` on `map`: exactly the shadowcast of the
/// view radius, in the order it finds them; hence no repeats, the origin and its eight
/// neighbours among them, all within the view radius, every cell within it when nothing
/// there blocks sight, and nothing straight behind a wall on the origin's row or column.
pub open spec fn fov_result(vis: Seq<Coord>, origin: Coord, map: GameMap) -> bool {
    &&& vis == fov_seq(map, origin, VIEW_RADIUS as int)
    &&& vis.no_duplicates()
    &&& vis.contains(origin)
    &&& all_within(vis, origin, VIEW_RADIUS as int)
    &&& neighbours_seen(vis, origin, VIEW_RADIUS as int)
    &&& clear_around(map, origin, VIEW_RADIUS as int) ==> disk_seen(vis, origin, VIEW_RADIUS as int)
    &&& forall|x: Coord| #[trigger] vis.contains(x) ==> !behind_wall(map, origin, x)
}

/// `r` is the world state message built for a player in state `ps` who sees the cells
/// `vis`, from the map `map`, creatures `ents`, ground items `items`, the log lines `log`
/// at turn `turn` of sub-world `id`.
pub open spec fn state_message(
    r: ServerMessage,
    vis: Seq<Coord>,
    map: GameMap,
    ents: Seq<Entity>,
    items: Seq<GroundItem>,
    log: Seq<LogEntry>,
    ps: PlayerState,
    turn: u64,
    id: (i64, i64),
) -> bool {
    match r {
        ServerMessage::WorldState {
            seq,
            player_pos,
            visible_tiles,
            explored,
            explored_width,
            entities,
            items_ground,
            message_log,
            hp,
            stamina,
            thirst,
            hunger,
        } => {
            &&& seq == ps.last_seq
            &&& player_pos.x == global_of(ps.pos.x as int, id.0 as int)
            &&& player_pos.y == global_of(ps.pos.y as int, id.1 as int)
            &&& visible_tiles@ == tiles_of(map, vis, id)
            &&& explored@ == explored_window(map, ps.pos.x as int, ps.pos.y as int)
            &&& explored_width == 31
            &&& entities@ == entities_seen(ents, vis, id)
            &&& items_ground@ == items_seen(items, vis)
            &&& message_log@ == newest_first(log, 20)
            &&& hp == ps.hp
            &&& stamina == ps.stamina
            &&& thirst == ps.thirst
            &&& hunger == ps.hunger
        },
        _ => false,
    }
}

/// `r` is an error message with this code and text.
pub open spec fn is_error(r: ServerMessage, code: u32, text: Seq<char>) -> bool {
    match r {
        ServerMessage::Error { code: c, text: t } => c == code && t@ == text,
        _ => false,
    }
}

proof fn lemma_filter_none(s: Seq<GroundItem>, p: Coord)
    requires
        s.filter(|g: GroundItem| lies_at(g, p.x as int, p.y as int)).len() == 0,
    ensures
        s.filter(|g: GroundItem| !lies_at(g, p.x as int, p.y as int)) == s,
    decreases s.len(),
{
    reveal_with_fuel(Seq::<_>::filter, 1);
    if s.len() > 0 {
        let init = s.drop_last();
        if lies_at(s.last(), p.x as int, p.y as int) {
            assert(s.filter(|g: GroundItem| lies_at(g, p.x as int, p.y as int)).len() > 0);
        } else {
            lemma_filter_none(init, p);
            assert(init.push(s.last()) =~= s);
        }
    }
}

/// What a sub-world reports to the world manager.
#[derive(Debug)]
pub enum SubWorldEvent {
    /// A player took the stairs: move it from `from_sw` to `to_sw`, arriving at `pos`.
    TransferPlayer { player_id: u32, from_sw: (i64, i64), to_sw: (i64, i64), pos: Coord },
}

/// What a sub-world asks the code around it to do once it has handled a command.
#[derive(Debug)]
pub enum SubWorldEffect {
    /// Send `msg` to player `player_id`, waiting for room on its channel; a closed
    /// channel is ignored.
    Send { player_id: u32, msg: ServerMessage },
    /// Send `msg` to player `player_id`, waiting for room on its channel; when the channel
    /// is closed, the player's connection is gone and it is marked so with `leave`.
    Update { player_id: u32, msg: ServerMessage },
    /// Offer `msg` to player `player_id` without waiting; it may be dropped.
    Offer { player_id: u32, msg: ServerMessage },
    /// Hand `event` to the world manager.
    Event { event: SubWorldEvent },
    /// Answer a snapshot request with this copy of the map.
    Snapshot { map: SavedMap },
}

/// Where a one-step action leads from `pos`: the eight moves and waiting lead somewhere,
/// every other action nowhere.
pub open spec fn step_dest(pos: Coord, a: ActionType) -> Option<Coord> {
    match a {
        ActionType::MoveUp | ActionType::MoveDown | ActionType::MoveLeft | ActionType::MoveRight
        | ActionType::MoveUpLeft | ActionType::MoveUpRight | ActionType::MoveDownLeft
        | ActionType::MoveDownRight => Some(
            Coord { x: (pos.x + move_delta(a).0) as i32, y: (pos.y + move_delta(a).1) as i32 },
        ),
        ActionType::Wait => Some(pos),
        _ => None,
    }
}

/// Where a creature at `pos` ends up after `action`, if the action is a step or a wait.
fn ai_action_to_pos(pos: Coord, action: &ActionType) -> (r: Option<Coord>)
    requires
        fov_fits(pos, VIEW_RADIUS as int),
    ensures
        r == step_dest(pos, *action),
{
    match action {
        ActionType::MoveUp => Some(Coord::new(pos.x, pos.y - 1)),
        ActionType::MoveDown => Some(Coord::new(pos.x, pos.y + 1)),
        ActionType::MoveLeft => Some(Coord::new(pos.x - 1, pos.y)),
        ActionType::MoveRight => Some(Coord::new(pos.x + 1, pos.y)),
        ActionType::MoveUpLeft => Some(Coord::new(pos.x - 1, pos.y - 1)),
        ActionType::MoveUpRight => Some(Coord::new(pos.x + 1, pos.y - 1)),
        ActionType::MoveDownLeft => Some(Coord::new(pos.x - 1, pos.y + 1)),
        ActionType::MoveDownRight => Some(Coord::new(pos.x + 1, pos.y + 1)),
        ActionType::Wait => Some(pos),
        _ => None,
    }
}

/// A creature a player at `p` can strike: a non-player on one of the eight cells around
/// `p` or on `p` itself.
pub open spec fn attackable(e: Entity, p: Coord) -> bool {
    &&& e.entity_type != EntityType::Player
    &&& -1 <= e.pos.x - p.x <= 1
    &&& -1 <= e.pos.y - p.y <= 1
}

/// `k` is the first creature of `s` a player at `p` can strike.
pub open spec fn first_attackable(s: Seq<Entity>, p: Coord, k: int) -> bool {
    &&& 0 <= k < s.len()
    &&& attackable(s[k], p)
    &&& forall|j: int| 0 <= j < k ==> !attackable(s[j], p)
}

/// No creature of `s` can be struck from `p`.
pub open spec fn none_attackable(s: Seq<Entity>, p: Coord) -> bool {
    forall|j: int| 0 <= j < s.len() ==> !attackable(s[j], p)
}

fn find_attackable(s: &[Entity], p: Coord) -> (r: Option<usize>)
    ensures
        match r {
            Some(k) => first_attackable(s@, p, k as int),
            None => none_attackable(s@, p),
        },
{
    let mut i: usize = 0;
    while i < s.len()
        invariant
            i <= s@.len(),
            forall|j: int| 0 <= j < i ==> !attackable(s@[j], p),
        decreases s@.len() - i,
    {
        let e = &s[i];
        let dx = e.pos.x as i64 - p.x as i64;
        let dy = e.pos.y as i64 - p.y as i64;
        if e.entity_type != EntityType::Player && -1 <= dx && dx <= 1 && -1 <= dy && dy <= 1 {
            return Some(i);
        }
        i = i + 1;
    }
    None
}

/// The stairs on a tile: +1 for stairs down, -1 for stairs up.
pub open spec fn stairs_step(t: TileType) -> Option<int> {
    match t {
        TileType::StairsDown => Some(1),
        TileType::StairsUp => Some(-1),
        _ => None,
    }
}

/// What a monster decides, as `ai_action` does, toward the player at `tpos` with an
/// alert radius of 8 and a chase radius of 15: `ai_decision`, which attacks, chases along
/// a cheapest path, wanders or idles as spelled out after it.
pub open spec fn ai_choice(e: Entity, map: GameMap, ents: Seq<Entity>, tpos: Coord, r: Option<ActionType>) -> bool {
    let d = chebyshev(e.pos, tpos);
    &&& r == ai_decision(e, map, ents, tpos, 8, 15)
    &&& d <= 1 ==> r == Some(ActionType::MeleeAttack)
    &&& d > 1 && d > 15 ==> r == fallback_result(e, map, ents, tpos, 8)
    &&& 1 < d <= 15 ==> ((r == fallback_result(e, map, ents, tpos, 8) && forall|p: Seq<Coord>|
        valid_path(map, ents, e.pos, tpos, p) ==> path_cost(p.drop_last()) >= 100) || exists|
        p: Seq<Coord>|
        valid_path(map, ents, e.pos, tpos, p) && path_cost(p) < 114 && cheapest_within(
            map,
            ents,
            e.pos,
            tpos,
            p,
            100,
        ) && r == Some(dir_action(p[1].x - e.pos.x, p[1].y - e.pos.y)))
}

/// The numbers of the creatures of `s`, in order.
pub open spec fn entity_ids(s: Seq<Entity>) -> Seq<u32> {
    s.map_values(|e: Entity| e.id)
}

/// The creatures, players and log lines that the monsters' turns change.
pub open spec fn world_parts(sw: SubWorld) -> (Seq<Entity>, Seq<(u32, PlayerState)>, Seq<LogEntry>) {
    (sw.entities.view_seq(), sw.players@, sw.log.entries_view())
}

/// Monster `e` (found under number `eid` in `w`) next to the target player `tpid` struck
/// it with the roll `roll`, the log telling the blow (giving `mid`) and, when the player
/// drops to 0 hit points or fewer, its death; the player's hit points fall by the damage,
/// never below 0.
pub open spec fn ai_struck(
    cap: nat,
    turn: u64,
    tpid: u32,
    e: Entity,
    w: (Seq<Entity>, Seq<(u32, PlayerState)>, Seq<LogEntry>),
    w2: (Seq<Entity>, Seq<(u32, PlayerState)>, Seq<LogEntry>),
    roll: int,
    mid: Seq<LogEntry>,
) -> bool {
    let st = stats_for(entity_code(e.entity_type));
    let out = attack_outcome(st.0 as int, st.1 as int, st.2 as int, roll);
    let dmg = out.1;
    let crit = out.2;
    &&& 1 <= roll <= 20
    &&& w2.0 == w.0
    &&& logged(w.2, mid, cap, combat_text(e.name@, player_name(tpid), dmg, crit), combat_color(dmg, crit), turn)
    &&& if dmg > 0 && has_player(w.1, tpid) && find_player(w.1, tpid)->0.connected {
        let ps = find_player(w.1, tpid)->0;
        if ps.hp - dmg <= 0 {
            &&& w2.1 == set_player(w.1, tpid, PlayerState { hp: 0, ..ps })
            &&& logged(mid, w2.2, cap, death_text(player_name(tpid)), 0xFF0000, turn)
        } else {
            &&& w2.1 == set_player(w.1, tpid, PlayerState { hp: (ps.hp - dmg) as i32, ..ps })
            &&& w2.2 == mid
        }
    } else {
        &&& w2.1 == w.1
        &&& w2.2 == mid
    }
}

/// Monster `e` (number `eid`) away from the target decided `act` and took the step it
/// leads to when that cell is passable and free; players and log stay as they are.
pub open spec fn ai_moved(
    map: GameMap,
    tpos: Coord,
    eid: u32,
    e: Entity,
    w: (Seq<Entity>, Seq<(u32, PlayerState)>, Seq<LogEntry>),
    w2: (Seq<Entity>, Seq<(u32, PlayerState)>, Seq<LogEntry>),
    act: Option<ActionType>,
) -> bool {
    &&& ai_choice(e, map, w.0, tpos, act)
    &&& w2.1 == w.1
    &&& w2.2 == w.2
    &&& w2.0 == match act {
        Some(a) => match step_dest(e.pos, a) {
            Some(d) if map.passable_at(d.x as int, d.y as int) && !occupied(w.0, d.x as int, d.y as int) =>
                moved_seq(w.0, eid, d),
            _ => w.0,
        },
        None => w.0,
    }
}

/// The turn of the creature numbered `eid`, from `w` to `w2`: players and missing
/// creatures do nothing; a monster next to the target player `target` attacks it, any
/// other monster acts as the AI decides.
pub open spec fn monster_turn(
    map: GameMap,
    cap: nat,
    turn: u64,
    target: (u32, Coord),
    eid: u32,
    w: (Seq<Entity>, Seq<(u32, PlayerState)>, Seq<LogEntry>),
    w2: (Seq<Entity>, Seq<(u32, PlayerState)>, Seq<LogEntry>),
) -> bool {
    if !has_id(w.0, eid) || w.0[index_of_id(w.0, eid)].entity_type == EntityType::Player {
        w2 == w
    } else {
        let e = w.0[index_of_id(w.0, eid)];
        if chebyshev(e.pos, target.1) <= 1 {
            exists|roll: int, mid: Seq<LogEntry>| #[trigger] ai_struck(cap, turn, target.0, e, w, w2, roll, mid)
        } else {
            exists|act: Option<ActionType>| #[trigger] ai_moved(map, target.1, eid, e, w, w2, act)
        }
    }
}

/// `trace` walks through the turns of the creatures numbered `ids`, one after another.
pub open spec fn ai_trace(
    map: GameMap,
    cap: nat,
    turn: u64,
    target: (u32, Coord),
    ids: Seq<u32>,
    trace: Seq<(Seq<Entity>, Seq<(u32, PlayerState)>, Seq<LogEntry>)>,
) -> bool {
    &&& trace.len() == ids.len() + 1
    &&& forall|k: int|
        0 <= k < ids.len() ==> monster_turn(map, cap, turn, target, ids[k], trace[k], #[trigger] trace[k + 1])
}

/// A command a sub-world handles.
#[derive(Debug)]
pub enum SubWorldCmd {
    /// A player arrives at `pos`.
    PlayerJoin { player_id: u32, pos: Coord },
    /// A player's connection is gone; its character stays, disconnected.
    PlayerLeave { player_id: u32 },
    /// A player acts with its action number `seq`; `target` (a position local to the
    /// sub-world) is not used.
    PlayerAction { player_id: u32, seq: u32, action: ActionType, target: Option<Coord> },
    /// The world manager asks for a copy of the map.
    Snapshot,
}

/// One sub-world of the game: its map, creatures, ground items, the players in it and
/// its message log. `linked` records whether a world manager listens for its events.
pub struct SubWorld {
    pub id: (i64, i64),
    pub map: GameMap,
    pub entities: EntityManager,
    pub items: ItemManager,
    pub players: Vec<(u32, PlayerState)>,
    pub turn: u64,
    pub log: MessageLog,
    pub linked: bool,
}

impl SubWorld {
    /// The players, in the order they arrived.
    pub open spec fn players_view(&self) -> Seq<(u32, PlayerState)> {
        self.players@
    }

    /// Whether a world manager listens for this sub-world's events.
    pub open spec fn linked_view(&self) -> bool {
        self.linked
    }

    pub open spec fn wf(&self) -> bool {
        &&& sw_id_ok(self.id)
        &&& self.map.wf()
        &&& self.entities.wf()
        &&& self.items.wf()
        &&& players_unique(self.players_view())
        &&& forall|k: int|
            0 <= k < self.players_view().len() ==> spot_ok(
                #[trigger] self.players_view()[k].1.pos,
                self.id,
            ) && 0 <= self.players_view()[k].1.hp <= 100
        &&& forall|i: int|
            0 <= i < self.entities.view_seq().len() ==> entity_ok(
                #[trigger] self.entities.view_seq()[i],
                self.id,
            )
    }

    /// `after` is `before` once the world state for player `pid` has been built: the
    /// answer `r`, and the cells the player sees marked explored.
    pub open spec fn world_state_rel(before: SubWorld, after: SubWorld, pid: u32, r: ServerMessage) -> bool {
        match find_player(before.players_view(), pid) {
            None => is_error(r, 1, "player not found"@) && after == before,
            Some(ps) => {
                let vis = fov_seq(before.map, ps.pos, VIEW_RADIUS as int);
                fov_result(vis, ps.pos, before.map) && after.map.tiles_view()
                    == before.map.tiles_view() && after.map.explored_view() == explored_after(
                    before.map.explored_view(),
                    vis,
                ) && after == (SubWorld { map: after.map, ..before }) && state_message(
                    r,
                    vis,
                    after.map,
                    before.entities.view_seq(),
                    before.items.view_seq(),
                    before.log.entries_view(),
                    ps,
                    before.turn,
                    before.id,
                )
            },
        }
    }

    /// Generate the sub-world `id` from the world seed: no players, turn 0, an empty log
    /// of 200 lines, not yet linked to a world manager.
    #[verifier::spinoff_prover]
    #[verifier::rlimit(40)]
    pub fn new(id: (i64, i64), world_seed: u64) -> (r: Self)
        requires
            sw_id_ok(id),
        ensures
            r.wf(),
            r.id == id,
            r.turn == 0,
            r.players_view() == Seq::<(u32, PlayerState)>::empty(),
            !r.linked_view(),
            r.log.entries_view() == Seq::<LogEntry>::empty(),
            r.log.capacity_view() == 200,
            forall|x: int, y: int|
                in_bounds_spec(x, y) && !(2 <= x < 509 && 2 <= y < 509) ==> #[trigger] r.map.tile_at(
                    x,
                    y,
                ) == fresh_tile(TileType::Wall),
            forall|x: int, y: int| in_bounds_spec(x, y) ==> !#[trigger] r.map.explored_at(x, y),
            exists|c: Coord| inner(c) && r.map.tile_at(c.x as int, c.y as int) == fresh_tile(TileType::StairsDown),
            monsters_added(Seq::<Entity>::empty(), r.entities.view_seq()),
            items_added(Seq::<GroundItem>::empty(), r.items.view_seq()),
            exists|spawn: Coord|
                #[trigger] generated_from(
                    sub_world_seed_spec(world_seed, id) as u64,
                    all_walls(),
                    r.map,
                    Seq::<Entity>::empty(),
                    r.entities.view_seq(),
                    Seq::<GroundItem>::empty(),
                    r.items.view_seq(),
                    1,
                    1,
                    spawn,
                ),
    {
        let mut map = GameMap::new();
        let mut entities = EntityManager::new();
        let mut items = ItemManager::new();
        let ghost m0 = map;
        let ghost e0 = entities.view_seq();
        let down = generate_sub_world(&mut map, &mut entities, &mut items, world_seed, id);
        let r = SubWorld {
            id,
            map,
            entities,
            items,
            players: Vec::new(),
            turn: 0,
            log: MessageLog::default(),
            linked: false,
        };
        proof {
            lemma_rebase(
                sub_world_seed_spec(world_seed, id) as u64,
                tile_fn(m0),
                all_walls(),
                map,
                e0,
                entities.view_seq(),
                Seq::<GroundItem>::empty(),
                items.view_seq(),
                1,
                1,
                down,
            );
            assert(e0.take(0) =~= e0);
            assert forall|i: int| 0 <= i < r.entities.view_seq().len() implies entity_ok(
                #[trigger] r.entities.view_seq()[i],
                id,
            ) by {
                let e = r.entities.view_seq()[i];
                assert(generated_monster(e));
                assert(e.id < r.entities.next_id_view());
                lemma_strip_offset(id.0 as int);
                lemma_strip_offset(id.1 as int);
            }
            assert forall|x: int, y: int| in_bounds_spec(x, y) implies !#[trigger] r.map.explored_at(x, y) by {
                assert(m0.tile_at(x, y) == fresh_tile(TileType::Wall));
                assert(m0.explored_at(x, y) == r.map.explored_at(x, y));
            }
            assert forall|x: int, y: int|
                in_bounds_spec(x, y) && !(2 <= x < 509 && 2 <= y < 509) implies #[trigger] r.map.tile_at(
                x,
                y,
            ) == fresh_tile(TileType::Wall) by {
                assert(m0.tile_at(x, y) == fresh_tile(TileType::Wall));
            }
        }
        r
    }

    /// Changing the turn count, the log or the link alone keeps a sub-world well formed.
    proof fn lemma_wf_same_parts(a: SubWorld, b: SubWorld)
        requires
            a.wf(),
            b.id == a.id,
            b.map == a.map,
            b.entities == a.entities,
            b.items == a.items,
            b.players@ == a.players@,
        ensures
            b.wf(),
    {
        assert(b.players_view() == a.players_view());
        assert(players_unique(b.players_view()));
        assert forall|k: int| 0 <= k < b.players_view().len() implies spot_ok(
            #[trigger] b.players_view()[k].1.pos,
            b.id,
        ) && 0 <= b.players_view()[k].1.hp <= 100 by {
            assert(b.players_view()[k] == a.players_view()[k]);
        }
    }

    /// Moving creatures about keeps a sub-world well formed as long as the creature list
    /// stays well formed and each creature stays usable.
    proof fn lemma_wf_entities_only(a: SubWorld, b: SubWorld)
        requires
            a.wf(),
            b == (SubWorld { entities: b.entities, ..a }),
            b.entities.wf(),
            forall|i: int|
                0 <= i < b.entities.view_seq().len() ==> entity_ok(
                    #[trigger] b.entities.view_seq()[i],
                    b.id,
                ),
        ensures
            b.wf(),
    {
        assert(b.players_view() == a.players_view());
        assert(players_unique(b.players_view()));
        assert forall|k: int| 0 <= k < b.players_view().len() implies spot_ok(
            #[trigger] b.players_view()[k].1.pos,
            b.id,
        ) && 0 <= b.players_view()[k].1.hp <= 100 by {
            assert(b.players_view()[k] == a.players_view()[k]);
        }
    }

    /// Writing to the log alone keeps a sub-world well formed.
    proof fn lemma_wf_log_only(a: SubWorld, b: SubWorld)
        requires
            a.wf(),
            b == (SubWorld { log: b.log, ..a }),
        ensures
            b.wf(),
    {
        assert(b.players_view() == a.players_view());
        assert(players_unique(b.players_view()));
        assert forall|k: int| 0 <= k < b.players_view().len() implies spot_ok(
            #[trigger] b.players_view()[k].1.pos,
            b.id,
        ) && 0 <= b.players_view()[k].1.hp <= 100 by {
            assert(b.players_view()[k] == a.players_view()[k]);
        }
    }

    /// Whether a player may join at `pos`: its view can be built from there and one more
    /// creature can be numbered.
    pub fn can_join(&self, pos: Coord) -> (r: bool)
        requires
            sw_id_ok(self.id),
        ensures
            r == (spot_ok(pos, self.id) && self.entities.next_id_view() < u32::MAX),
    {
        proof {
            lemma_strip_offset(self.id.0 as int);
            lemma_strip_offset(self.id.1 as int);
        }
        let ox: i64 = self.id.0 * 512;
        let oy: i64 = self.id.1 * 512;
        let x = pos.x as i64;
        let y = pos.y as i64;
        let fits_view = x - 15 >= -2147483648 && x + 15 <= 2147483647 && y - 15 >= -2147483648 && y
            + 15 <= 2147483647;
        let fits_global = x + ox >= -2147483648 && x + ox <= 2147483647 && y + oy >= -2147483648 && y
            + oy <= 2147483647;
        fits_view && fits_global && self.entities.next_id() < u32::MAX
    }

    /// Link the sub-world to a world manager, which then receives its transfer events.
    pub fn set_linked(&mut self, linked: bool)
        ensures
            *final(self) == (SubWorld { linked, ..*old(self) }),
            final(self).linked_view() == linked,
    {
        self.linked = linked;
    }

    /// The position of the player numbered `pid` in the player list.
    fn find_player_index(&self, pid: u32) -> (r: Option<usize>)
        requires
            players_unique(self.players_view()),
        ensures
            match r {
                Some(k) => player_at(self.players_view(), pid, k as int) && player_index(
                    self.players_view(),
                    pid,
                ) == k,
                None => !has_player(self.players_view(), pid),
            },
    {
        let mut i: usize = 0;
        while i < self.players.len()
            invariant
                i <= self.players@.len(),
                players_unique(self.players@),
                forall|j: int| 0 <= j < i ==> self.players@[j].0 != pid,
            decreases self.players@.len() - i,
        {
            if self.players[i].0 == pid {
                proof {
                    lemma_player_index(self.players@, pid, i as int);
                }
                return Some(i);
            }
            i = i + 1;
        }
        None
    }

    /// The state of the player numbered `pid`, if present.
    pub fn player(&self, pid: u32) -> (r: Option<PlayerState>)
        requires
            players_unique(self.players_view()),
        ensures
            r == find_player(self.players_view(), pid),
    {
        match self.find_player_index(pid) {
            Some(k) => Some(self.players[k].1),
            None => None,
        }
    }

    /// The players, in the order they arrived.
    pub fn players(&self) -> (r: &[(u32, PlayerState)])
        ensures
            r@ == self.players_view(),
    {
        self.players.as_slice()
    }


    /// The place of the first connected player, if any player is still connected.
    pub fn first_connected_index(&self) -> (r: Option<usize>)
        ensures
            r matches Some(k) ==> first_connected(self.players_view(), k as int),
            r is None <==> !any_connected(self.players_view()),
    {
        let mut k: usize = 0;
        while k < self.players.len()
            invariant
                k <= self.players@.len(),
                self.players_view() == self.players@,
                forall|j: int| 0 <= j < k ==> !(#[trigger] self.players@[j].1.connected),
            decreases self.players@.len() - k,
        {
            if self.players[k].1.connected {
                return Some(k);
            }
            k = k + 1;
        }
        None
    }

    /// Whether some player is still connected: the sub-world plays its turns only then.
    pub fn has_connected_players(&self) -> (r: bool)
        ensures
            r == any_connected(self.players_view()),
    {
        self.first_connected_index().is_some()
    }
    /// The sub-world just after player `pid` arrived at `pos`, before its first view is
    /// built: a creature named after the player stands at `pos`, and the player is listed
    /// with fresh statistics.
    pub open spec fn joined(before: SubWorld, mid: SubWorld, pid: u32, pos: Coord) -> bool {
        &&& mid.id == before.id
        &&& mid.map == before.map
        &&& mid.items == before.items
        &&& mid.turn == before.turn
        &&& mid.log == before.log
        &&& mid.linked == before.linked
        &&& mid.players@ == set_player(before.players@, pid, fresh_player(pos))
        &&& mid.entities.next_id_view() == before.entities.next_id_view() + 1
        &&& mid.entities.view_seq().len() == before.entities.view_seq().len() + 1
        &&& mid.entities.view_seq().drop_last() == before.entities.view_seq()
        &&& ({
            let e = mid.entities.view_seq().last();
            &&& e.id == before.entities.next_id_view()
            &&& e.name@ == player_name(pid)
            &&& e.entity_type == EntityType::Player
            &&& e.pos == pos
            &&& e.hp == 100
            &&& e.max_hp == 100
        })
    }

    /// A player who joins is listed, after its first view has been built, at its arrival
    /// position with every statistic at 100.
    pub proof fn lemma_join_lists_player(before: SubWorld, mid: SubWorld, after: SubWorld, pid: u32, pos: Coord, r: ServerMessage)
        requires
            before.wf(),
            SubWorld::joined(before, mid, pid, pos),
            SubWorld::world_state_rel(mid, after, pid, r),
        ensures
            find_player(after.players@, pid) == Some(fresh_player(pos)),
            r is WorldState,
    {
        lemma_set_then_find(before.players@, pid, fresh_player(pos));
        assert(after.players@ == mid.players@);
    }

    /// Player `pid` arrives at `pos`: a creature named after it is spawned there, it is
    /// listed (replacing an earlier entry under the same number) with every statistic at
    /// 100, and the world state it should be sent first is returned.
    #[verifier::spinoff_prover]
    pub fn join(&mut self, pid: u32, pos: Coord) -> (r: ServerMessage)
        requires
            old(self).wf(),
            spot_ok(pos, old(self).id),
            old(self).entities.next_id_view() < u32::MAX,
        ensures
            final(self).wf(),
            exists|mid: SubWorld|
                SubWorld::joined(*old(self), mid, pid, pos) && #[trigger] SubWorld::world_state_rel(
                    mid,
                    *final(self),
                    pid,
                    r,
                ),
    {
        let name = player_name_string(pid);
        let ghost e0 = self.entities.view_seq();
        self.entities.spawn(name, EntityType::Player, pos, 100);
        let st = PlayerState {
            pos,
            hp: 100,
            max_hp: 100,
            stamina: 100,
            hunger: 100,
            thirst: 100,
            connected: true,
            last_seq: 0,
        };
        let ghost p0 = self.players@;
        match self.find_player_index(pid) {
            Some(k) => {
                self.players.set(k, (pid, st));
            },
            None => {
                self.players.push((pid, st));
            },
        }
        proof {
            assert(self.players@ == set_player(p0, pid, fresh_player(pos)));
            assert(self.entities.view_seq().drop_last() =~= e0);
            assert forall|i: int, j: int| 0 <= i < j < self.players@.len() implies self.players@[i].0
                != self.players@[j].0 by {
                if has_player(p0, pid) {
                    let k = player_index(p0, pid);
                    assert(player_at(p0, pid, k));
                } else {
                    if j == p0.len() {
                        assert(!player_at(p0, pid, i));
                    }
                }
            }
            assert forall|k: int| 0 <= k < self.players@.len() implies spot_ok(
                #[trigger] self.players@[k].1.pos,
                self.id,
            ) && 0 <= self.players@[k].1.hp <= 100 by {
                if k < p0.len() && self.players@[k] == p0[k] {
                    assert(spot_ok(p0[k].1.pos, self.id));
                }
            }
            assert forall|i: int| 0 <= i < self.entities.view_seq().len() implies entity_ok(
                #[trigger] self.entities.view_seq()[i],
                self.id,
            ) by {
                if i < e0.len() {
                    assert(self.entities.view_seq()[i] == e0[i]);
                }
            }
            assert(find_player(self.players@, pid) == Some(fresh_player(pos))) by {
                if has_player(p0, pid) {
                    let k = player_index(p0, pid);
                    assert(player_at(self.players@, pid, k));
                    lemma_player_index(self.players@, pid, k);
                } else {
                    assert(player_at(self.players@, pid, p0.len() as int));
                    lemma_player_index(self.players@, pid, p0.len() as int);
                }
            }
        }
        let ghost mid = *self;
        let r = self.world_state_for(pid);
        proof {
            assert(SubWorld::joined(*old(self), mid, pid, pos));
            assert(SubWorld::world_state_rel(mid, *self, pid, r));
        }
        r
    }

    /// Player `pid` leaves (its connection is gone): its character stays where it is,
    /// marked as disconnected, so that it takes no more damage, and the log says so.
    #[verifier::spinoff_prover]
    pub fn leave(&mut self, pid: u32)
        requires
            old(self).wf(),
        ensures
            final(self).wf(),
            final(self).players@ == disconnected(old(self).players@, pid),
            final(self).entities == old(self).entities,
            logged(
                old(self).log.entries_view(),
                final(self).log.entries_view(),
                old(self).log.capacity_view(),
                left_text(pid, old(self).id),
                0xFFFFFF,
                old(self).turn,
            ),
            final(self).log.capacity_view() == old(self).log.capacity_view(),
            final(self).id == old(self).id,
            final(self).map == old(self).map,
            final(self).items == old(self).items,
            final(self).turn == old(self).turn,
            final(self).linked == old(self).linked,
    {
        match self.find_player_index(pid) {
            Some(k) => {
                let mut st = self.players[k].1;
                st.connected = false;
                self.replace_player_at(k, st);
            },
            None => {},
        }
        let mut t = String::new();
        proof {
            reveal_strlit("Player ");
            reveal_strlit(" left sub-world ");
        }
        push_str(&mut t, "Player ");
        push_decimal(&mut t, pid as i64);
        push_str(&mut t, " left sub-world ");
        push_id(&mut t, self.id);
        assert(t@ =~= left_text(pid, self.id));
        let ghost l0 = self.log.entries_view();
        let ghost line = LogEntry { text: t, color: 0xFFFFFF, turn: self.turn };
        self.log.info(self.turn, t);
        proof {
            assert(log_after_add(l0, line, old(self).log.capacity_view()) == self.log.entries_view());
            assert(self.wf());
        }
    }

    /// Note that player `pid`, if present, has applied its action numbered `seq`.
    pub fn note_seq(&mut self, pid: u32, seq: u32)
        requires
            old(self).wf(),
        ensures
            final(self).wf(),
            final(self).players@ == seq_noted(old(self).players@, pid, seq),
            *final(self) == (SubWorld { players: final(self).players, ..*old(self) }),
    {
        match self.find_player_index(pid) {
            Some(k) => {
                let mut st = self.players[k].1;
                st.last_seq = seq;
                self.replace_player_at(k, st);
            },
            None => {},
        }
    }

    /// Put state `st` in place of the state of the `k`-th player, at the same position
    /// and with the same hit points.
    fn replace_player_at(&mut self, k: usize, st: PlayerState)
        requires
            old(self).wf(),
            k < old(self).players@.len(),
            st.pos == old(self).players@[k as int].1.pos,
            st.hp == old(self).players@[k as int].1.hp,
        ensures
            final(self).wf(),
            final(self).players@ == old(self).players@.update(
                k as int,
                (old(self).players@[k as int].0, st),
            ),
            *final(self) == (SubWorld { players: final(self).players, ..*old(self) }),
    {
        let ghost p0 = self.players@;
        let id = self.players[k].0;
        self.players.set(k, (id, st));
        proof {
            assert forall|i: int, j: int| 0 <= i < j < self.players@.len() implies self.players@[i].0
                != self.players@[j].0 by {
                assert(p0[i].0 == self.players@[i].0 && p0[j].0 == self.players@[j].0);
            }
            assert forall|q: int| 0 <= q < self.players@.len() implies spot_ok(
                #[trigger] self.players@[q].1.pos,
                self.id,
            ) && 0 <= self.players@[q].1.hp <= 100 by {
                assert(spot_ok(p0[q].1.pos, self.id));
                assert(0 <= p0[q].1.hp <= 100);
            }
            assert(self.wf());
        }
    }

    /// Take player `pid` off the player list (nothing else changes), as when it moves to
    /// another sub-world.
    #[verifier::spinoff_prover]
    pub fn remove_player(&mut self, pid: u32)
        requires
            old(self).wf(),
        ensures
            final(self).wf(),
            final(self).players@ == drop_player(old(self).players@, pid),
            *final(self) == (SubWorld { players: final(self).players, ..*old(self) }),
    {
        let ghost p0 = self.players@;
        match self.find_player_index(pid) {
            Some(k) => {
                self.players.remove(k);
                proof {
                    assert forall|i: int, j: int| 0 <= i < j < self.players@.len() implies self.players@[i].0
                        != self.players@[j].0 by {
                        let a = if i < k { i } else { i + 1 };
                        let b = if j < k { j } else { j + 1 };
                        assert(self.players@[i] == p0[a]);
                        assert(self.players@[j] == p0[b]);
                    }
                    assert forall|q: int| 0 <= q < self.players@.len() implies spot_ok(
                        #[trigger] self.players@[q].1.pos,
                        self.id,
                    ) && 0 <= self.players@[q].1.hp <= 100 by {
                        let a = if q < k { q } else { q + 1 };
                        assert(self.players@[q] == p0[a]);
                        assert(spot_ok(p0[a].1.pos, self.id));
                    }
                }
            },
            None => {},
        }
    }

    /// Player `pid` at `p` swung at the first creature it can strike, `k`, which the roll
    /// `roll` decided: the log tells the blow (giving `mid`) and, when it kills, the
    /// death; the creature loses the damage or is removed.
    pub open spec fn struck(
        before: SubWorld,
        after: SubWorld,
        pid: u32,
        p: Coord,
        k: int,
        roll: int,
        mid: Seq<LogEntry>,
    ) -> bool {
        let s = before.entities.view_seq();
        let t = s[k];
        let cap = before.log.capacity_view();
        let out = attack_outcome(
            stats_for(0).0 as int,
            stats_for(entity_code(t.entity_type)).1 as int,
            stats_for(0).2 as int,
            roll,
        );
        let dmg = out.1;
        let crit = out.2;
        &&& first_attackable(s, p, k)
        &&& 1 <= roll <= 20
        &&& logged(
            before.log.entries_view(),
            mid,
            cap,
            combat_text(player_name(pid), t.name@, dmg, crit),
            combat_color(dmg, crit),
            before.turn,
        )
        &&& if dmg > 0 && t.hp - dmg <= 0 {
                &&& logged(mid, after.log.entries_view(), cap, death_text(t.name@), 0xFF0000, before.turn)
                &&& after.entities.view_seq() == s.remove(k)
            } else if dmg > 0 {
                &&& after.log.entries_view() == mid
                &&& after.entities.view_seq() == s.update(k, Entity { hp: (t.hp - dmg) as i32, ..t })
            } else {
                &&& after.log.entries_view() == mid
                &&& after.entities.view_seq() == s
            }
    }

    /// What a melee attack by player `pid` standing at `p` does.
    pub open spec fn attack_rel(before: SubWorld, after: SubWorld, pid: u32, p: Coord) -> bool {
        let s = before.entities.view_seq();
        let cap = before.log.capacity_view();
        &&& after == (SubWorld { entities: after.entities, log: after.log, ..before })
        &&& after.entities.next_id_view() == before.entities.next_id_view()
        &&& after.log.capacity_view() == cap
        &&& if none_attackable(s, p) {
            &&& after.entities.view_seq() == s
            &&& logged(
                before.log.entries_view(),
                after.log.entries_view(),
                cap,
                "No enemy nearby to attack."@,
                0xFFFFFF,
                before.turn,
            )
        } else {
            exists|k: int, roll: int, mid: Seq<LogEntry>|
                #[trigger] SubWorld::struck(before, after, pid, p, k, roll, mid)
        }
    }

    /// Player `pid` attacks: it strikes the first creature next to it (players excepted),
    /// with the player's attack and base damage against the creature's defence; a
    /// creature brought to 0 hit points or fewer dies. Nothing happens for an unknown
    /// player.
    #[verifier::spinoff_prover]
    fn handle_player_attack(&mut self, pid: u32)
        requires
            old(self).wf(),
        ensures
            final(self).wf(),
            match find_player(old(self).players@, pid) {
                None => *final(self) == *old(self),
                Some(ps) => SubWorld::attack_rel(*old(self), *final(self), pid, ps.pos),
            },
    {
        let p = match self.player(pid) {
            Some(ps) => ps.pos,
            None => {
                return;
            },
        };
        let ghost s = self.entities.view_seq();
        let ghost l0 = self.log.entries_view();
        let found = find_attackable(self.entities.all(), p);
        let k = match found {
            None => {
                let text = String::from_str("No enemy nearby to attack.");
                proof {
                    reveal_strlit("No enemy nearby to attack.");
                }
                let ghost line = LogEntry { text, color: 0xFFFFFF, turn: self.turn };
                self.log.info(self.turn, text);
                proof {
                    assert(log_after_add(l0, line, old(self).log.capacity_view()) == self.log.entries_view());
                    SubWorld::lemma_wf_log_only(*old(self), *self);
                }
                return;
            },
            Some(k) => k,
        };
        let target_id = self.entities.all()[k].id;
        let def_code = self.entities.all()[k].entity_type.to_u8();
        let defender_name = self.entities.all()[k].name.clone();
        let ghost t = s[k as int];
        let (atk, _, base_dmg) = get_entity_stats(0);
        let (_, def, _) = get_entity_stats(def_code);
        let result = melee_attack(atk, def, base_dmg);
        let attacker_name = player_name_string(pid);
        self.log.combat(self.turn, attacker_name.as_str(), defender_name.as_str(), result.damage, result.critical);
        let ghost mid = self.log.entries_view();
        proof {
            let tt = choose|tt: String|
                tt@ == combat_text(attacker_name@, defender_name@, result.damage as int, result.critical)
                    && self.log.entries_view() == log_after_add(
                    l0,
                    LogEntry { text: tt, color: combat_color(result.damage as int, result.critical), turn: self.turn },
                    old(self).log.capacity_view(),
                );
            assert(logged(
                l0,
                mid,
                old(self).log.capacity_view(),
                combat_text(player_name(pid), t.name@, result.damage as int, result.critical),
                combat_color(result.damage as int, result.critical),
                self.turn,
            ));
            lemma_index_of_id(s, target_id, k as int);
        }
        if result.damage > 0 {
            let mut dead = false;
            match self.entities.get_mut(target_id) {
                Some(target) => {
                    target.hp = target.hp - result.damage;
                    dead = target.hp <= 0;
                },
                None => {},
            }
            proof {
                assert(at_id(s, target_id, k as int));
                assert(has_id(s, target_id));
                assert(self.entities.view_seq() == s.update(
                    k as int,
                    Entity { hp: (t.hp - result.damage) as i32, ..t },
                ));
                let s1 = self.entities.view_seq();
                assert forall|i: int| 0 <= i < s1.len() implies #[trigger] s1[i].id == s[i].id by {
                }
                assert(self.entities.wf());
            }
            if dead {
                let ghost s1 = self.entities.view_seq();
                self.log.death(self.turn, defender_name.as_str());
                self.entities.remove(target_id);
                proof {
                    assert(at_id(s1, target_id, k as int));
                    lemma_index_of_id(s1, target_id, k as int);
                    assert(has_id(s1, target_id));
                    assert(self.entities.view_seq() == s1.remove(k as int));
                    assert(self.entities.view_seq() =~= s.remove(k as int));
                    let tt = choose|tt: String|
                        tt@ == death_text(defender_name@) && self.log.entries_view() == log_after_add(
                            mid,
                            LogEntry { text: tt, color: 0xFF0000, turn: self.turn },
                            old(self).log.capacity_view(),
                        );
                    assert(logged(
                        mid,
                        self.log.entries_view(),
                        old(self).log.capacity_view(),
                        death_text(t.name@),
                        0xFF0000,
                        self.turn,
                    ));
                    assert forall|i: int| 0 <= i < self.entities.view_seq().len() implies entity_ok(
                        #[trigger] self.entities.view_seq()[i],
                        self.id,
                    ) by {
                        if i < k {
                            assert(self.entities.view_seq()[i] == s[i]);
                        } else {
                            assert(self.entities.view_seq()[i] == s[i + 1]);
                        }
                    }
                }
            } else {
                proof {
                    assert forall|i: int| 0 <= i < self.entities.view_seq().len() implies entity_ok(
                        #[trigger] self.entities.view_seq()[i],
                        self.id,
                    ) by {
                        if i != k {
                            assert(self.entities.view_seq()[i] == s[i]);
                        }
                    }
                }
            }
        }
        proof {
            let dmg = result.damage as int;
            let crit = result.critical;
            assert(stats_for(0).0 == atk && stats_for(0).2 == base_dmg);
            assert(stats_for(entity_code(t.entity_type)).1 == def);
            assert(first_attackable(s, p, k as int));
            assert(logged(
                l0,
                mid,
                old(self).log.capacity_view(),
                combat_text(player_name(pid), t.name@, dmg, crit),
                combat_color(dmg, crit),
                old(self).turn,
            ));
            if dmg > 0 && t.hp - dmg <= 0 {
                assert(logged(mid, self.log.entries_view(), old(self).log.capacity_view(), death_text(t.name@), 0xFF0000, old(self).turn));
                assert(self.entities.view_seq() == s.remove(k as int));
            } else if dmg > 0 {
                assert(self.log.entries_view() == mid);
                assert(self.entities.view_seq() == s.update(k as int, Entity { hp: (t.hp - dmg) as i32, ..t }));
            } else {
                assert(self.log.entries_view() == mid);
                assert(self.entities.view_seq() == s);
            }
            assert(SubWorld::struck(*old(self), *self, pid, p, k as int, result.roll as int, mid));
        }
    }

    /// Player `pid` picks up everything lying where it stands; the log says so when there
    /// is nothing. Nothing happens for an unknown player.
    #[verifier::spinoff_prover]
    fn handle_pickup(&mut self, pid: u32)
        requires
            old(self).wf(),
        ensures
            final(self).wf(),
            match find_player(old(self).players@, pid) {
                None => *final(self) == *old(self),
                Some(ps) => {
                    &&& *final(self) == (SubWorld { items: final(self).items, log: final(self).log, ..*old(self) })
                    &&& final(self).items.next_id_view() == old(self).items.next_id_view()
                    &&& final(self).items.view_seq() == old(self).items.view_seq().filter(
                        |g: GroundItem| !lies_at(g, ps.pos.x as int, ps.pos.y as int),
                    )
                    &&& final(self).log.capacity_view() == old(self).log.capacity_view()
                    &&& if old(self).items.view_seq().filter(
                        |g: GroundItem| lies_at(g, ps.pos.x as int, ps.pos.y as int),
                    ).len() == 0 {
                        logged(
                            old(self).log.entries_view(),
                            final(self).log.entries_view(),
                            old(self).log.capacity_view(),
                            "Nothing to pick up here."@,
                            0xFFFFFF,
                            old(self).turn,
                        )
                    } else {
                        final(self).log == old(self).log
                    }
                },
            },
    {
        let p = match self.player(pid) {
            Some(ps) => ps.pos,
            None => {
                return;
            },
        };
        let ground = self.items.items_at(p.x, p.y);
        proof {
            assert(ground@.len() == ground@.map_values(|g: &GroundItem| *g).len());
        }
        if ground.len() == 0 {
            let ghost l0 = self.log.entries_view();
            let text = String::from_str("Nothing to pick up here.");
            proof {
                reveal_strlit("Nothing to pick up here.");
            }
            let ghost line = LogEntry { text, color: 0xFFFFFF, turn: self.turn };
            self.log.info(self.turn, text);
            proof {
                assert(log_after_add(l0, line, old(self).log.capacity_view()) == self.log.entries_view());
                lemma_filter_none(self.items.view_seq(), p);
                SubWorld::lemma_wf_log_only(*old(self), *self);
            }
            return;
        }
        self.items.take_all_at(p.x, p.y);
    }

    /// The move of player `pid` to the free, passable cell `d` next to it, and, when `d`
    /// holds stairs and a world manager listens, its transfer: `after` and the effects
    /// `effects` are what that gives.
    pub open spec fn moved_rel(
        before: SubWorld,
        after: SubWorld,
        pid: u32,
        d: Coord,
        effects: Seq<SubWorldEffect>,
    ) -> bool {
        let ps = find_player(before.players@, pid)->0;
        let ents1 = moved_seq(before.entities.view_seq(), pid, d);
        let players1 = set_player(before.players@, pid, PlayerState { pos: d, ..ps });
        let cap = before.log.capacity_view();
        &&& after.id == before.id
        &&& after.map == before.map
        &&& after.items == before.items
        &&& after.turn == before.turn
        &&& after.linked == before.linked
        &&& after.entities.next_id_view() == before.entities.next_id_view()
        &&& after.log.capacity_view() == cap
        &&& match stairs_step(before.map.tile_at(d.x as int, d.y as int).tile_type) {
            Some(step) if before.linked => {
                let to = (before.id.0, (before.id.1 + step) as i64);
                &&& after.players@ == drop_player(players1, pid)
                &&& after.entities.view_seq() == removed_seq(ents1, pid)
                &&& logged(
                    before.log.entries_view(),
                    after.log.entries_view(),
                    cap,
                    transferred_text(pid, to),
                    0xFFFFFF,
                    before.turn,
                )
                &&& effects == seq![
                    SubWorldEffect::Offer {
                        player_id: pid,
                        msg: ServerMessage::SubWorldTransfer {
                            new_sub_world_id: to,
                            pos: Coord {
                                x: global_of(256, to.0 as int) as i32,
                                y: global_of(256, to.1 as int) as i32,
                            },
                        },
                    },
                    SubWorldEffect::Event {
                        event: SubWorldEvent::TransferPlayer {
                            player_id: pid,
                            from_sw: before.id,
                            to_sw: to,
                            pos: Coord { x: 256, y: 256 },
                        },
                    },
                ]
            },
            _ => {
                &&& after.players@ == players1
                &&& after.entities.view_seq() == ents1
                &&& after.log == before.log
                &&& effects.len() == 0
            },
        }
    }

    /// What a player action does to `before`, giving `after` and the effects `effects`.
    pub open spec fn action_rel(
        before: SubWorld,
        after: SubWorld,
        pid: u32,
        action: ActionType,
        effects: Seq<SubWorldEffect>,
    ) -> bool {
        match find_player(before.players@, pid) {
            None => after == before && effects.len() == 0,
            Some(ps) => match action {
                ActionType::MeleeAttack => SubWorld::attack_rel(before, after, pid, ps.pos)
                    && effects.len() == 0,
                ActionType::Pickup => {
                    &&& after == (SubWorld { items: after.items, log: after.log, ..before })
                    &&& after.items.view_seq() == before.items.view_seq().filter(
                        |g: GroundItem| !lies_at(g, ps.pos.x as int, ps.pos.y as int),
                    )
                    &&& after.items.next_id_view() == before.items.next_id_view()
                    &&& after.log.capacity_view() == before.log.capacity_view()
                    &&& if before.items.view_seq().filter(
                        |g: GroundItem| lies_at(g, ps.pos.x as int, ps.pos.y as int),
                    ).len() == 0 {
                        logged(
                            before.log.entries_view(),
                            after.log.entries_view(),
                            before.log.capacity_view(),
                            "Nothing to pick up here."@,
                            0xFFFFFF,
                            before.turn,
                        )
                    } else {
                        after.log == before.log
                    }
                    &&& effects.len() == 0
                },
                _ => match step_dest(ps.pos, action) {
                    Some(d) if d != ps.pos && before.map.passable_at(d.x as int, d.y as int)
                        && !occupied(before.entities.view_seq(), d.x as int, d.y as int) =>
                        SubWorld::moved_rel(before, after, pid, d, effects),
                    _ => after == before && effects.len() == 0,
                },
            },
        }
    }

    /// Player `pid` takes the stairs to `to_sw`: when a world manager listens, the player
    /// is told its new global position, the manager is asked to move it, and it leaves
    /// this sub-world (its listing, the creature numbered `pid`) with a log line.
    #[verifier::spinoff_prover]
    fn emit_transfer(&mut self, pid: u32, to_sw: (i64, i64)) -> (r: Vec<SubWorldEffect>)
        requires
            old(self).wf(),
            to_sw.0 == old(self).id.0,
            to_sw.1 == old(self).id.1 + 1 || to_sw.1 == old(self).id.1 - 1,
            has_player(old(self).players@, pid),
        ensures
            final(self).wf(),
            !old(self).linked ==> *final(self) == *old(self) && r@.len() == 0,
            old(self).linked ==> {
                &&& final(self).players@ == drop_player(old(self).players@, pid)
                &&& final(self).entities.view_seq() == removed_seq(old(self).entities.view_seq(), pid)
                &&& final(self).entities.next_id_view() == old(self).entities.next_id_view()
                &&& logged(
                    old(self).log.entries_view(),
                    final(self).log.entries_view(),
                    old(self).log.capacity_view(),
                    transferred_text(pid, to_sw),
                    0xFFFFFF,
                    old(self).turn,
                )
                &&& final(self).log.capacity_view() == old(self).log.capacity_view()
                &&& final(self).id == old(self).id
                &&& final(self).map == old(self).map
                &&& final(self).items == old(self).items
                &&& final(self).turn == old(self).turn
                &&& final(self).linked == old(self).linked
                &&& r@ == seq![
                    SubWorldEffect::Offer {
                        player_id: pid,
                        msg: ServerMessage::SubWorldTransfer {
                            new_sub_world_id: to_sw,
                            pos: Coord {
                                x: global_of(256, to_sw.0 as int) as i32,
                                y: global_of(256, to_sw.1 as int) as i32,
                            },
                        },
                    },
                    SubWorldEffect::Event {
                        event: SubWorldEvent::TransferPlayer {
                            player_id: pid,
                            from_sw: old(self).id,
                            to_sw,
                            pos: Coord { x: 256, y: 256 },
                        },
                    },
                ]
            },
    {
        if !self.linked {
            return Vec::new();
        }
        let pos = Coord::new(256, 256);
        proof {
            lemma_strip_offset(to_sw.0 as int);
            lemma_transfer_offset(to_sw.1 as int);
        }
        let global = local_to_global(pos, to_sw);
        let mut effects: Vec<SubWorldEffect> = Vec::new();
        effects.push(
            SubWorldEffect::Offer {
                player_id: pid,
                msg: ServerMessage::SubWorldTransfer { new_sub_world_id: to_sw, pos: global },
            },
        );
        effects.push(
            SubWorldEffect::Event {
                event: SubWorldEvent::TransferPlayer { player_id: pid, from_sw: self.id, to_sw, pos },
            },
        );
        self.remove_player(pid);
        let ghost e0 = self.entities.view_seq();
        self.entities.remove(pid);
        let mut t = String::new();
        proof {
            reveal_strlit("Player ");
            reveal_strlit(" transferred to ");
        }
        push_str(&mut t, "Player ");
        push_decimal(&mut t, pid as i64);
        push_str(&mut t, " transferred to ");
        push_id(&mut t, to_sw);
        assert(t@ =~= transferred_text(pid, to_sw));
        let ghost l0 = self.log.entries_view();
        let ghost line = LogEntry { text: t, color: 0xFFFFFF, turn: self.turn };
        self.log.info(self.turn, t);
        proof {
            assert(log_after_add(l0, line, old(self).log.capacity_view()) == self.log.entries_view());
            assert forall|i: int| 0 <= i < self.entities.view_seq().len() implies entity_ok(
                #[trigger] self.entities.view_seq()[i],
                self.id,
            ) by {
                if has_id(e0, pid) {
                    let k = index_of_id(e0, pid);
                    if i < k {
                        assert(self.entities.view_seq()[i] == e0[i]);
                    } else {
                        assert(self.entities.view_seq()[i] == e0[i + 1]);
                    }
                }
            }
            assert(effects@ =~= seq![
                SubWorldEffect::Offer {
                    player_id: pid,
                    msg: ServerMessage::SubWorldTransfer { new_sub_world_id: to_sw, pos: global },
                },
                SubWorldEffect::Event {
                    event: SubWorldEvent::TransferPlayer { player_id: pid, from_sw: old(self).id, to_sw, pos },
                },
            ]);
        }
        effects
    }

    /// Handle an action of player `pid`: a step (to a free, passable cell; stairs there
    /// take the player to the sub-world below or above), a melee attack or a pickup. Other
    /// actions, and actions of unknown players, change nothing.
    #[verifier::spinoff_prover]
    pub fn player_action(&mut self, pid: u32, action: &ActionType) -> (r: Vec<SubWorldEffect>)
        requires
            old(self).wf(),
        ensures
            final(self).wf(),
            SubWorld::action_rel(*old(self), *final(self), pid, *action, r@),
    {
        let k = match self.find_player_index(pid) {
            Some(k) => k,
            None => {
                return Vec::new();
            },
        };
        let ps = self.players[k].1;
        proof {
            assert(find_player(self.players@, pid) == Some(ps));
            assert(spot_ok(self.players@[k as int].1.pos, self.id));
        }
        match action {
            ActionType::MeleeAttack => {
                self.handle_player_attack(pid);
                return Vec::new();
            },
            ActionType::Pickup => {
                self.handle_pickup(pid);
                return Vec::new();
            },
            _ => {},
        }
        let dest = match ai_action_to_pos(ps.pos, action) {
            Some(d) => d,
            None => {
                return Vec::new();
            },
        };
        if dest != ps.pos && self.map.is_passable(dest.x, dest.y) && is_free(&self.entities, dest.x, dest.y) {
            let ghost e0 = self.entities.view_seq();
            let ghost p0 = self.players@;
            self.entities.move_entity(pid, dest);
            let moved = PlayerState { pos: dest, ..ps };
            self.players.set(k, (pid, moved));
            proof {
                lemma_strip_offset(self.id.0 as int);
                lemma_strip_offset(self.id.1 as int);
                assert(self.players@ == set_player(p0, pid, moved));
                assert forall|i: int, j: int| 0 <= i < j < self.players@.len() implies self.players@[i].0
                    != self.players@[j].0 by {
                    assert(p0[i].0 == self.players@[i].0 && p0[j].0 == self.players@[j].0);
                }
                assert forall|q: int| 0 <= q < self.players@.len() implies spot_ok(
                    #[trigger] self.players@[q].1.pos,
                    self.id,
                ) && 0 <= self.players@[q].1.hp <= 100 by {
                    if q != k {
                        assert(self.players@[q] == p0[q]);
                        assert(spot_ok(p0[q].1.pos, self.id));
                    }
                }
                assert forall|i: int| 0 <= i < self.entities.view_seq().len() implies entity_ok(
                    #[trigger] self.entities.view_seq()[i],
                    self.id,
                ) by {
                    assert(entity_ok(e0[i], self.id));
                    if has_id(e0, pid) && i == index_of_id(e0, pid) {
                    } else {
                        assert(self.entities.view_seq()[i] == e0[i]);
                    }
                }
            }
            let tile_type = match self.map.get_tile(dest.x, dest.y) {
                Some(t) => t.tile_type,
                None => TileType::Floor,
            };
            let ghost mid = *self;
            proof {
                assert(find_player(mid.players@, pid) == Some(moved)) by {
                    assert(player_at(mid.players@, pid, k as int));
                    lemma_player_index(mid.players@, pid, k as int);
                }
            }
            match tile_type {
                TileType::StairsDown => {
                    return self.emit_transfer(pid, (self.id.0, self.id.1 + 1));
                },
                TileType::StairsUp => {
                    return self.emit_transfer(pid, (self.id.0, self.id.1 - 1));
                },
                _ => {},
            }
        }
        Vec::new()
    }

    /// What the monsters' turns do: with no connected player nothing; otherwise each
    /// creature, in the order of the creature list, takes its turn against the first
    /// connected player of the list.
    pub open spec fn ai_rel(before: SubWorld, after: SubWorld) -> bool {
        if !any_connected(before.players@) {
            after == before
        } else {
            &&& after == (SubWorld {
                entities: after.entities,
                players: after.players,
                log: after.log,
                ..before
            })
            &&& after.entities.next_id_view() == before.entities.next_id_view()
            &&& after.log.capacity_view() == before.log.capacity_view()
            &&& exists|trace: Seq<(Seq<Entity>, Seq<(u32, PlayerState)>, Seq<LogEntry>)>|
                #[trigger] ai_trace(
                    before.map,
                    before.log.capacity_view(),
                    before.turn,
                    (
                        before.players@[target_index(before.players@)].0,
                        before.players@[target_index(before.players@)].1.pos,
                    ),
                    entity_ids(before.entities.view_seq()),
                    trace,
                ) && trace[0] == world_parts(before) && trace.last() == world_parts(after)
        }
    }

    /// The monsters' turns: each creature other than a player, in list order, attacks the
    /// first connected player when next to it (with its own attack, defence and base
    /// damage; the player's hit points never fall below 0), and otherwise steps as the AI
    /// decides when the cell is passable and free.
    #[verifier::spinoff_prover]
    fn advance_ai(&mut self)
        requires
            old(self).wf(),
        ensures
            final(self).wf(),
            SubWorld::ai_rel(*old(self), *final(self)),
    {
        let t = match self.first_connected_index() {
            Some(t) => t,
            None => {
                return;
            },
        };
        let target_pid = self.players[t].0;
        let target = self.players[t].1.pos;
        let ghost tgt = (target_pid, target);
        proof {
            lemma_target_index(self.players@, t as int);
        }
        let ghost ids = entity_ids(self.entities.view_seq());
        let ghost cap = self.log.capacity_view();
        let mut eids: Vec<u32> = Vec::new();
        let mut j: usize = 0;
        while j < self.entities.len()
            invariant
                j <= self.entities.view_seq().len(),
                ids == entity_ids(self.entities.view_seq()),
                eids@ == ids.take(j as int),
            decreases self.entities.view_seq().len() - j,
        {
            eids.push(self.entities.all()[j].id);
            j = j + 1;
            assert(eids@ =~= ids.take(j as int));
        }
        proof {
            assert(ids.take(j as int) =~= ids);
        }
        let ghost mut trace = seq![world_parts(*self)];
        let mut i: usize = 0;
        while i < eids.len()
            invariant
                self.wf(),
                i <= eids@.len(),
                eids@ == ids,
                any_connected(old(self).players@),
                tgt == (
                    old(self).players@[target_index(old(self).players@)].0,
                    old(self).players@[target_index(old(self).players@)].1.pos,
                ),
                tgt.0 == target_pid,
                tgt.1 == target,
                cap == old(self).log.capacity_view(),
                self.log.capacity_view() == cap,
                self.entities.next_id_view() == old(self).entities.next_id_view(),
                *self == (SubWorld {
                    entities: self.entities,
                    players: self.players,
                    log: self.log,
                    ..*old(self)
                }),
                trace.len() == i + 1,
                trace[0] == world_parts(*old(self)),
                trace.last() == world_parts(*self),
                forall|k: int|
                    0 <= k < i ==> monster_turn(
                        old(self).map,
                        cap,
                        old(self).turn,
                        tgt,
                        ids[k],
                        trace[k],
                        #[trigger] trace[k + 1],
                    ),
            decreases eids@.len() - i,
        {
            let eid = eids[i];
            let ghost w = world_parts(*self);
            let found = match self.entities.get(eid) {
                Some(e) => Some(e.clone()),
                None => None,
            };
            match found {
                None => {},
                Some(entity) => {
                    proof {
                        let q = choose|q: int| at_id(w.0, eid, q) && entity == w.0[q];
                        lemma_index_of_id(w.0, eid, q);
                        assert(entity_ok(w.0[q], self.id));
                    }
                    if entity.entity_type != EntityType::Player {
                        let dx: i64 = if entity.pos.x >= target.x {
                            entity.pos.x as i64 - target.x as i64
                        } else {
                            target.x as i64 - entity.pos.x as i64
                        };
                        let dy: i64 = if entity.pos.y >= target.y {
                            entity.pos.y as i64 - target.y as i64
                        } else {
                            target.y as i64 - entity.pos.y as i64
                        };
                        let dist = if dx >= dy { dx } else { dy };
                        if dist <= 1 {
                            self.monster_strike(target_pid, &entity);
                            proof {
                                let (roll, mid) = choose|roll: int, mid: Seq<LogEntry>|
                                    #[trigger] ai_struck(cap, old(self).turn, target_pid, entity, w, world_parts(*self), roll, mid);
                                assert(ai_struck(cap, old(self).turn, target_pid, entity, w, world_parts(*self), roll, mid));
                            }
                        } else {
                            let act = ai_action(&entity, &self.map, &self.entities, target, 8, 15);
                            let ghost before_move = world_parts(*self);
                            if let Some(a) = act {
                                if let Some(d) = ai_action_to_pos(entity.pos, &a) {
                                    if self.map.is_passable(d.x, d.y) && is_free(&self.entities, d.x, d.y) {
                                        let ghost e0 = self.entities.view_seq();
                                        let ghost pre_move = *self;
                                        self.entities.move_entity(eid, d);
                                        proof {
                                            lemma_strip_offset(self.id.0 as int);
                                            lemma_strip_offset(self.id.1 as int);
                                            assert forall|q: int| 0 <= q < self.entities.view_seq().len() implies entity_ok(
                                                #[trigger] self.entities.view_seq()[q],
                                                self.id,
                                            ) by {
                                                assert(entity_ok(e0[q], self.id));
                                                if has_id(e0, eid) && q == index_of_id(e0, eid) {
                                                } else {
                                                    assert(self.entities.view_seq()[q] == e0[q]);
                                                }
                                            }
                                            SubWorld::lemma_wf_entities_only(pre_move, *self);
                                        }
                                    }
                                }
                            }
                            proof {
                                assert(ai_moved(old(self).map, target, eid, entity, w, world_parts(*self), act));
                            }
                        }
                    }
                },
            }
            proof {
                assert(monster_turn(old(self).map, cap, old(self).turn, tgt, ids[i as int], w, world_parts(*self)));
                trace = trace.push(world_parts(*self));
            }
            i = i + 1;
        }
        proof {
            assert(ai_trace(old(self).map, cap, old(self).turn, tgt, ids, trace));
        }
    }

    /// A monster next to the target player strikes it.
    #[verifier::spinoff_prover]
    fn monster_strike(&mut self, tpid: u32, entity: &Entity)
        requires
            old(self).wf(),
            entity.entity_type != EntityType::Player,
        ensures
            final(self).wf(),
            *final(self) == (SubWorld { players: final(self).players, log: final(self).log, ..*old(self) }),
            final(self).log.capacity_view() == old(self).log.capacity_view(),
            exists|roll: int, mid: Seq<LogEntry>|
                #[trigger] ai_struck(
                    old(self).log.capacity_view(),
                    old(self).turn,
                    tpid,
                    *entity,
                    world_parts(*old(self)),
                    world_parts(*final(self)),
                    roll,
                    mid,
                ),
            forall|q: int|
                0 <= q < final(self).players@.len() ==> #[trigger] final(self).players@[q].0
                    == old(self).players@[q].0 && final(self).players@[q].1.pos == old(self).players@[q].1.pos,
            final(self).players@.len() == old(self).players@.len(),
    {
        let code = entity.entity_type.to_u8();
        let (atk, def, base_dmg) = get_entity_stats(code);
        let result = melee_attack(atk, def, base_dmg);
        let pname = player_name_string(tpid);
        let ghost l0 = self.log.entries_view();
        self.log.combat(self.turn, entity.name.as_str(), pname.as_str(), result.damage, result.critical);
        let ghost mid = self.log.entries_view();
        proof {
            let tt = choose|tt: String|
                tt@ == combat_text(entity.name@, pname@, result.damage as int, result.critical)
                    && self.log.entries_view() == log_after_add(
                    l0,
                    LogEntry { text: tt, color: combat_color(result.damage as int, result.critical), turn: self.turn },
                    old(self).log.capacity_view(),
                );
            assert(logged(
                l0,
                mid,
                old(self).log.capacity_view(),
                combat_text(entity.name@, player_name(tpid), result.damage as int, result.critical),
                combat_color(result.damage as int, result.critical),
                self.turn,
            ));
        }
        let target_connected = match self.find_player_index(tpid) {
            Some(k) => self.players[k].1.connected,
            None => false,
        };
        assert(target_connected == (has_player(self.players@, tpid) && find_player(
            self.players@,
            tpid,
        )->0.connected));
        if result.damage > 0 && target_connected {
            match self.find_player_index(tpid) {
                Some(k) => {
                    let mut ps = self.players[k].1;
                    let ghost p0 = self.players@;
                    let ghost ps0 = ps;
                    assert(spot_ok(self.players@[k as int].1.pos, self.id));
                    assert(0 <= self.players@[k as int].1.hp <= 100);
                    assert(0 <= result.damage <= 10);
                    ps.hp = ps.hp - result.damage;
                    if ps.hp <= 0 {
                        ps.hp = 0;
                        self.players.set(k, (tpid, ps));
                        self.log.death(self.turn, pname.as_str());
                        proof {
                            let tt = choose|tt: String|
                                tt@ == death_text(pname@) && self.log.entries_view() == log_after_add(
                                    mid,
                                    LogEntry { text: tt, color: 0xFF0000, turn: self.turn },
                                    old(self).log.capacity_view(),
                                );
                            assert(logged(
                                mid,
                                self.log.entries_view(),
                                old(self).log.capacity_view(),
                                death_text(player_name(tpid)),
                                0xFF0000,
                                self.turn,
                            ));
                        }
                    } else {
                        self.players.set(k, (tpid, ps));
                    }
                    proof {
                        assert(find_player(p0, tpid) == Some(ps0));
                        assert forall|i: int, j: int| 0 <= i < j < self.players@.len() implies self.players@[i].0
                            != self.players@[j].0 by {
                            assert(p0[i].0 == self.players@[i].0 && p0[j].0 == self.players@[j].0);
                        }
                        assert forall|q: int| 0 <= q < self.players@.len() implies spot_ok(
                            #[trigger] self.players@[q].1.pos,
                            self.id,
                        ) && 0 <= self.players@[q].1.hp <= 100 by {
                            assert(spot_ok(p0[q].1.pos, self.id));
                        }
                    }
                },
                None => {},
            }
        }
        proof {
            assert(ai_struck(
                old(self).log.capacity_view(),
                old(self).turn,
                tpid,
                *entity,
                world_parts(*old(self)),
                world_parts(*self),
                result.roll as int,
                mid,
            ));
        }
    }

    /// `trace` walks through the players `ps` one after another: for each connected one
    /// the world state built for it, sent as the next update; a disconnected one is
    /// skipped.
    pub open spec fn broadcast_trace(
        ps: Seq<(u32, PlayerState)>,
        trace: Seq<SubWorld>,
        effects: Seq<SubWorldEffect>,
    ) -> bool {
        &&& trace.len() == ps.len() + 1
        &&& effects.len() == connected_before(ps, ps.len() as int)
        &&& forall|k: int| 0 <= k < ps.len() ==> #[trigger] SubWorld::update_step(ps, trace, effects, k)
    }

    /// Player `k` of `ps`, when connected, was sent the world state built from `trace[k]`
    /// (giving `trace[k + 1]`) as update number `connected_before(ps, k)`; a disconnected
    /// player leaves the sub-world as it was.
    pub open spec fn update_step(
        ps: Seq<(u32, PlayerState)>,
        trace: Seq<SubWorld>,
        effects: Seq<SubWorldEffect>,
        k: int,
    ) -> bool {
        if ps[k].1.connected {
            match effects[connected_before(ps, k)] {
                SubWorldEffect::Update { player_id, msg } => player_id == ps[k].0
                    && SubWorld::world_state_rel(trace[k], trace[k + 1], ps[k].0, msg),
                _ => false,
            }
        } else {
            trace[k + 1] == trace[k]
        }
    }

    proof fn lemma_update_step_keep(
        ps: Seq<(u32, PlayerState)>,
        t1: Seq<SubWorld>,
        e1: Seq<SubWorldEffect>,
        t2: Seq<SubWorld>,
        e2: Seq<SubWorldEffect>,
        k: int,
    )
        requires
            SubWorld::update_step(ps, t1, e1, k),
            t2[k] == t1[k],
            t2[k + 1] == t1[k + 1],
            ps[k].1.connected ==> e2[connected_before(ps, k)] == e1[connected_before(ps, k)],
        ensures
            SubWorld::update_step(ps, t2, e2, k),
    {
    }

    /// What sending every connected player its world state does.
    pub open spec fn broadcast_rel(before: SubWorld, after: SubWorld, effects: Seq<SubWorldEffect>) -> bool {
        exists|trace: Seq<SubWorld>|
            #[trigger] SubWorld::broadcast_trace(before.players@, trace, effects) && trace[0] == before
                && trace.last() == after
    }

    /// Build the world state of every connected player, in list order, each to be sent as
    /// an update.
    #[verifier::spinoff_prover]
    fn broadcast_all(&mut self) -> (r: Vec<SubWorldEffect>)
        requires
            old(self).wf(),
        ensures
            final(self).wf(),
            SubWorld::broadcast_rel(*old(self), *final(self), r@),
    {
        let mut effects: Vec<SubWorldEffect> = Vec::new();
        let ghost ps = self.players@;
        let ghost mut trace = seq![*self];
        let n = self.players.len();
        let mut i: usize = 0;
        while i < n
            invariant
                self.wf(),
                n == ps.len(),
                i <= n,
                self.players@ == ps,
                ps == old(self).players@,
                trace.len() == i + 1,
                trace[0] == *old(self),
                trace.last() == *self,
                effects@.len() == connected_before(ps, i as int),
                forall|k: int| 0 <= k < i ==> #[trigger] SubWorld::update_step(ps, trace, effects@, k),
            decreases n - i,
        {
            let ghost before = *self;
            let ghost old_effects = effects@;
            let ghost old_trace = trace;
            if self.players[i].1.connected {
                let pid = self.players[i].0;
                let msg = self.world_state_for(pid);
                proof {
                    assert(SubWorld::world_state_rel(before, *self, pid, msg));
                }
                effects.push(SubWorldEffect::Update { player_id: pid, msg });
            }
            proof {
                assert(effects@.len() >= old_effects.len());
                assert(effects@.take(old_effects.len() as int) =~= old_effects);
                trace = trace.push(*self);
                assert(trace[i as int] == before);
                assert(SubWorld::update_step(ps, trace, effects@, i as int));
                assert forall|k: int| 0 <= k < i + 1 implies #[trigger] SubWorld::update_step(
                    ps,
                    trace,
                    effects@,
                    k,
                ) by {
                    if k < i {
                        assert(trace[k] == old_trace[k]);
                        assert(trace[k + 1] == old_trace[k + 1]);
                        if ps[k].1.connected {
                            lemma_connected_before_grows(ps, k + 1, i as int);
                            lemma_connected_before_grows(ps, 0, k);
                            assert(connected_before(ps, k + 1) == connected_before(ps, k) + 1);
                            assert(connected_before(ps, k) < old_effects.len());
                            assert(effects@.take(old_effects.len() as int)[connected_before(ps, k)] == old_effects[connected_before(ps, k)]);
                        }
                        SubWorld::lemma_update_step_keep(ps, old_trace, old_effects, trace, effects@, k);
                    }
                }
            }
            i = i + 1;
        }
        proof {
            assert(SubWorld::broadcast_trace(old(self).players@, trace, effects@));
        }
        effects
    }

    /// One turn of the sub-world: while some player is connected, the turn count goes
    /// up, the monsters take their turns and every connected player is sent its world
    /// state. With no connected player nothing happens.
    #[verifier::spinoff_prover]
    pub fn tick(&mut self) -> (r: Vec<SubWorldEffect>)
        requires
            old(self).wf(),
            any_connected(old(self).players@) ==> old(self).turn < u64::MAX,
        ensures
            final(self).wf(),
            !any_connected(old(self).players@) ==> *final(self) == *old(self) && r@.len() == 0,
            any_connected(old(self).players@) ==> exists|a: SubWorld, b: SubWorld|
                a == (SubWorld { turn: (old(self).turn + 1) as u64, ..*old(self) })
                    && #[trigger] SubWorld::ai_rel(a, b) && SubWorld::broadcast_rel(b, *final(self), r@),
    {
        if !self.has_connected_players() {
            return Vec::new();
        }
        self.turn = self.turn + 1;
        let ghost a = *self;
        proof {
            SubWorld::lemma_wf_same_parts(*old(self), a);
        }
        self.advance_ai();
        let ghost b = *self;
        let r = self.broadcast_all();
        proof {
            assert(SubWorld::ai_rel(a, b));
        }
        r
    }

    /// Handle one command: a player joining (sent its first world state), leaving or
    /// acting, or a snapshot request (answered with the saved form of the map).
    #[verifier::spinoff_prover]
    pub fn handle_cmd(&mut self, cmd: SubWorldCmd) -> (r: Vec<SubWorldEffect>)
        requires
            old(self).wf(),
            cmd matches SubWorldCmd::PlayerJoin { pos, .. } ==> spot_ok(pos, old(self).id)
                && old(self).entities.next_id_view() < u32::MAX,
        ensures
            final(self).wf(),
            match cmd {
                SubWorldCmd::PlayerJoin { player_id, pos } => r@.len() == 1 && match r@[0] {
                    SubWorldEffect::Send { player_id: to, msg } => to == player_id && exists|mid: SubWorld|
                        SubWorld::joined(*old(self), mid, player_id, pos)
                            && #[trigger] SubWorld::world_state_rel(mid, *final(self), player_id, msg),
                    _ => false,
                },
                SubWorldCmd::PlayerLeave { player_id } => {
                    &&& r@.len() == 0
                    &&& final(self).players@ == disconnected(old(self).players@, player_id)
                    &&& final(self).entities == old(self).entities
                    &&& logged(
                        old(self).log.entries_view(),
                        final(self).log.entries_view(),
                        old(self).log.capacity_view(),
                        left_text(player_id, old(self).id),
                        0xFFFFFF,
                        old(self).turn,
                    )
                    &&& final(self).log.capacity_view() == old(self).log.capacity_view()
                    &&& final(self).id == old(self).id
                    &&& final(self).map == old(self).map
                    &&& final(self).items == old(self).items
                    &&& final(self).turn == old(self).turn
                    &&& final(self).linked == old(self).linked
                },
                SubWorldCmd::PlayerAction { player_id, seq, action, .. } => exists|mid: SubWorld|
                    mid.players@ == seq_noted(old(self).players@, player_id, seq) && mid == (SubWorld {
                        players: mid.players,
                        ..*old(self)
                    }) && #[trigger] SubWorld::action_rel(mid, *final(self), player_id, action, r@),
                SubWorldCmd::Snapshot => *final(self) == *old(self) && r@.len() == 1 && match r@[0] {
                    SubWorldEffect::Snapshot { map } => saves(map, old(self).map),
                    _ => false,
                },
            },
    {
        match cmd {
            SubWorldCmd::PlayerJoin { player_id, pos } => {
                let msg = self.join(player_id, pos);
                let mut r: Vec<SubWorldEffect> = Vec::new();
                r.push(SubWorldEffect::Send { player_id, msg });
                r
            },
            SubWorldCmd::PlayerLeave { player_id } => {
                self.leave(player_id);
                Vec::new()
            },
            SubWorldCmd::PlayerAction { player_id, seq, action, target: _ } => {
                self.note_seq(player_id, seq);
                let ghost mid = *self;
                let r = self.player_action(player_id, &action);
                proof {
                    assert(SubWorld::action_rel(mid, *self, player_id, action, r@));
                }
                r
            },
            SubWorldCmd::Snapshot => {
                let map = SavedMap::from_map(&self.map);
                let mut r: Vec<SubWorldEffect> = Vec::new();
                r.push(SubWorldEffect::Snapshot { map });
                r
            },
        }
    }

    /// Mark every in-bounds cell of `cells` explored.
    #[verifier::spinoff_prover]
    fn mark_explored(&mut self, cells: &[Coord])
        requires
            old(self).map.wf(),
        ensures
            final(self).map.wf(),
            final(self).map.tiles_view() == old(self).map.tiles_view(),
            final(self).map.explored_view() == explored_after(old(self).map.explored_view(), cells@),
            *final(self) == (SubWorld { map: final(self).map, ..*old(self) }),
    {
        let ghost e0 = self.map.explored_view();
        let mut i: usize = 0;
        proof {
            assert(explored_after(e0, cells@.take(0)) =~= e0);
        }
        while i < cells.len()
            invariant
                self.map.wf(),
                i <= cells@.len(),
                e0 == old(self).map.explored_view(),
                self.map.tiles_view() == old(self).map.tiles_view(),
                self.map.explored_view() == explored_after(e0, cells@.take(i as int)),
                *self == (SubWorld { map: self.map, ..*old(self) }),
            decreases cells@.len() - i,
        {
            let c = cells[i];
            let ghost before = self.map.explored_view();
            self.map.set_explored(c.x, c.y, true);
            proof {
                let pre = cells@.take(i as int);
                let post = cells@.take(i + 1);
                assert(post =~= pre.push(c));
                assert forall|j: int| 0 <= j < e0.len() implies #[trigger] self.map.explored_view()[j]
                    == explored_after(e0, post)[j] by {
                    if in_bounds_spec(c.x as int, c.y as int) && j == crate::map::cell_index(
                        c.x as int,
                        c.y as int,
                    ) {
                        assert(post.contains(c)) by {
                            assert(post[i as int] == c);
                        }
                    } else {
                        if exists|d: Coord|
                            post.contains(d) && in_bounds_spec(d.x as int, d.y as int)
                                && crate::map::cell_index(d.x as int, d.y as int) == j {
                            let d = choose|d: Coord|
                                post.contains(d) && in_bounds_spec(d.x as int, d.y as int)
                                    && crate::map::cell_index(d.x as int, d.y as int) == j;
                            let t = choose|t: int| 0 <= t < post.len() && post[t] == d;
                            if t < i {
                                assert(pre[t] == d);
                                assert(pre.contains(d));
                            } else {
                                assert(d == c);
                            }
                        }
                        if exists|d: Coord|
                            pre.contains(d) && in_bounds_spec(d.x as int, d.y as int)
                                && crate::map::cell_index(d.x as int, d.y as int) == j {
                            let d = choose|d: Coord|
                                pre.contains(d) && in_bounds_spec(d.x as int, d.y as int)
                                    && crate::map::cell_index(d.x as int, d.y as int) == j;
                            let t = choose|t: int| 0 <= t < pre.len() && pre[t] == d;
                            assert(post[t] == d);
                            assert(post.contains(d));
                        }
                    }
                }
                assert(self.map.explored_view() =~= explored_after(e0, post));
            }
            i = i + 1;
        }
        proof {
            assert(cells@.take(i as int) =~= cells@);
        }
    }

    /// Build what player `pid` sees: compute its field of view, mark those cells
    /// explored, and gather the visible tiles, creatures and ground items, the explored
    /// flags around it, the newest log lines and its statistics. An error (code 1) when
    /// the player is not in this sub-world.
    #[verifier::spinoff_prover]
    pub fn world_state_for(&mut self, pid: u32) -> (r: ServerMessage)
        requires
            old(self).wf(),
        ensures
            final(self).wf(),
            SubWorld::world_state_rel(*old(self), *final(self), pid, r),
    {
        let ps = match self.player(pid) {
            Some(ps) => ps,
            None => {
                let text = String::from_str("player not found");
                proof {
                    reveal_strlit("player not found");
                }
                return ServerMessage::Error { code: 1, text };
            },
        };
        proof {
            let k = player_index(self.players_view(), pid);
            assert(player_at(self.players_view(), pid, k));
            assert(spot_ok(self.players_view()[k].1.pos, self.id));
        }
        let cx = ps.pos.x;
        let cy = ps.pos.y;
        let mut visible = VisibleSet::new();
        compute_fov(&self.map, ps.pos, VIEW_RADIUS, &mut visible);
        let ghost vis = visible.cells_view();
        let ghost before = *self;
        self.mark_explored(visible.cells());
        let visible_tiles = tiles_for(&self.map, visible.cells(), self.id);
        proof {
            assert forall|i: int|
                0 <= i < self.entities.view_seq().len() && visible.cells_view().contains(
                    #[trigger] self.entities.view_seq()[i].pos,
                ) implies i32::MIN <= global_of(self.entities.view_seq()[i].pos.x as int, self.id.0 as int)
                <= i32::MAX && i32::MIN <= global_of(
                self.entities.view_seq()[i].pos.y as int,
                self.id.1 as int,
            ) <= i32::MAX by {
                assert(entity_ok(self.entities.view_seq()[i], self.id));
            }
            lemma_strip_offset(self.id.0 as int);
            lemma_strip_offset(self.id.1 as int);
        }
        let entities = entities_for(self.entities.all(), &visible, self.id);
        let items_ground = items_for(self.items.all_ground_items(), &visible);
        let explored = explored_window_for(&self.map, cx, cy);
        let player_pos = local_to_global(ps.pos, self.id);
        let message_log = self.log.recent(20);
        let r = ServerMessage::WorldState {
            seq: ps.last_seq,
            player_pos,
            visible_tiles,
            explored,
            explored_width: 31,
            entities,
            items_ground,
            message_log,
            hp: ps.hp,
            stamina: ps.stamina,
            thirst: ps.thirst,
            hunger: ps.hunger,
        };
        proof {
            assert(fov_result(vis, ps.pos, before.map));
            assert(state_message(
                r,
                vis,
                self.map,
                before.entities.view_seq(),
                before.items.view_seq(),
                before.log.entries_view(),
                ps,
                before.turn,
                before.id,
            ));
        }
        r
    }
}

/// A melee attack reaches only the eight cells around the player (and its own cell):
/// when no creature other than a player stands within Chebyshev distance 1 of the
/// attacker, nothing is struck and the log says "No enemy nearby to attack."; otherwise the
/// creature struck is the first in the list that is not a player and stands within
/// distance 1.
pub proof fn lemma_melee_reach(before: SubWorld, after: SubWorld, pid: u32, p: Coord)
    requires
        SubWorld::attack_rel(before, after, pid, p),
    ensures
        (forall|i: int|
            0 <= i < before.entities.view_seq().len() ==> (#[trigger] before.entities.view_seq()[i]).entity_type
                == EntityType::Player || chebyshev(before.entities.view_seq()[i].pos, p) > 1) ==> {
            &&& after.entities.view_seq() == before.entities.view_seq()
            &&& logged(
                before.log.entries_view(),
                after.log.entries_view(),
                before.log.capacity_view(),
                "No enemy nearby to attack."@,
                0xFFFFFF,
                before.turn,
            )
        },
        (exists|i: int|
            0 <= i < before.entities.view_seq().len() && (#[trigger] before.entities.view_seq()[i]).entity_type
                != EntityType::Player && chebyshev(before.entities.view_seq()[i].pos, p) <= 1) ==> exists|
            k: int,
            roll: int,
            mid: Seq<LogEntry>,
        |
            #[trigger] SubWorld::struck(before, after, pid, p, k, roll, mid) && before.entities.view_seq()[k].entity_type
                != EntityType::Player && chebyshev(before.entities.view_seq()[k].pos, p) <= 1 && forall|j: int|
                0 <= j < k ==> before.entities.view_seq()[j].entity_type == EntityType::Player || chebyshev(
                    before.entities.view_seq()[j].pos,
                    p,
                ) > 1,
{
    let s = before.entities.view_seq();
    if forall|i: int|
        0 <= i < s.len() ==> (#[trigger] s[i]).entity_type == EntityType::Player || chebyshev(s[i].pos, p) > 1 {
        assert forall|j: int| 0 <= j < s.len() implies !attackable(s[j], p) by {
            assert(s[j].entity_type == EntityType::Player || chebyshev(s[j].pos, p) > 1);
        }
        assert(none_attackable(s, p));
    }
    if exists|i: int|
        0 <= i < s.len() && (#[trigger] s[i]).entity_type != EntityType::Player && chebyshev(s[i].pos, p) <= 1 {
        let i = choose|i: int|
            0 <= i < s.len() && (#[trigger] s[i]).entity_type != EntityType::Player && chebyshev(s[i].pos, p) <= 1;
        assert(attackable(s[i], p));
        assert(!none_attackable(s, p));
        let (k, roll, mid) = choose|k: int, roll: int, mid: Seq<LogEntry>|
            #[trigger] SubWorld::struck(before, after, pid, p, k, roll, mid);
        assert(first_attackable(s, p, k));
        assert forall|j: int| 0 <= j < k implies s[j].entity_type == EntityType::Player || chebyshev(s[j].pos, p) > 1 by {
            assert(!attackable(s[j], p));
        }
    }
}

/// Stairs lead the way they point: a player who steps onto stairs up, in a sub-world a
/// world manager listens to, is offered the sub-world one row up (second number one less)
/// and handed over to it; onto stairs down, the one a row down (second number one more).
pub proof fn lemma_stairs_direction(
    before: SubWorld,
    after: SubWorld,
    pid: u32,
    d: Coord,
    effects: Seq<SubWorldEffect>,
)
    requires
        SubWorld::moved_rel(before, after, pid, d, effects),
        before.linked,
        i64::MIN < before.id.1 < i64::MAX,
    ensures
        before.map.tile_at(d.x as int, d.y as int).tile_type == TileType::StairsUp ==> stairs_lead(
            before.id,
            pid,
            effects,
            before.id.1 - 1,
        ),
        before.map.tile_at(d.x as int, d.y as int).tile_type == TileType::StairsDown ==> stairs_lead(
            before.id,
            pid,
            effects,
            before.id.1 + 1,
        ),
{
}

/// A step onto anything but stairs, or in a sub-world no world manager listens to, only
/// moves the player: no offer, no hand-over, the player still listed at its new cell.
pub proof fn lemma_plain_step_stays(
    before: SubWorld,
    after: SubWorld,
    pid: u32,
    d: Coord,
    effects: Seq<SubWorldEffect>,
)
    requires
        SubWorld::moved_rel(before, after, pid, d, effects),
        !before.linked || (before.map.tile_at(d.x as int, d.y as int).tile_type != TileType::StairsUp
            && before.map.tile_at(d.x as int, d.y as int).tile_type != TileType::StairsDown),
    ensures
        effects.len() == 0,
        after.id == before.id,
        after.players@ == set_player(
            before.players@,
            pid,
            PlayerState { pos: d, ..find_player(before.players@, pid)->0 },
        ),
{
}

/// `effects` offer player `pid` the sub-world in the same column as `from` whose second
/// number is `row`, and hand the player over to it.
pub open spec fn stairs_lead(from: (i64, i64), pid: u32, effects: Seq<SubWorldEffect>, row: int) -> bool {
    &&& effects.len() == 2
    &&& effects[0] matches SubWorldEffect::Offer {
        player_id,
        msg: ServerMessage::SubWorldTransfer { new_sub_world_id, .. },
    } && player_id == pid && new_sub_world_id.0 == from.0 && new_sub_world_id.1 == row
    &&& effects[1] matches SubWorldEffect::Event {
        event: SubWorldEvent::TransferPlayer { player_id, from_sw, to_sw, .. },
    } && player_id == pid && from_sw == from && to_sw.0 == from.0 && to_sw.1 == row
}

} // verus!
