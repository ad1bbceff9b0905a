use vstd::prelude::*;

use crate::entity::{Entity, EntityManager};
use crate::map::GameMap;
use crate::messages::ActionType;
use crate::prediction::move_delta;
use crate::pathfinding::{
    cheapest_within,
    chebyshev,
    find_step_toward,
    occupied,
    path_cost,
    step_toward,
    valid_path,
};
use crate::types::Coord;

verus! {

/// -1, 0 or 1 by the sign of `v`.
pub open spec fn sign(v: int) -> int {
    if v < 0 {
        -1
    } else if v > 0 {
        1
    } else {
        0
    }
}

/// The move action heading in the direction of (dx, dy); `Wait` for (0, 0).
pub open spec fn dir_action(dx: int, dy: int) -> ActionType {
    let sx = sign(dx);
    let sy = sign(dy);
    if sx == -1 && sy == -1 {
        ActionType::MoveUpLeft
    } else if sx == 0 && sy == -1 {
        ActionType::MoveUp
    } else if sx == 1 && sy == -1 {
        ActionType::MoveUpRight
    } else if sx == -1 && sy == 0 {
        ActionType::MoveLeft
    } else if sx == 1 && sy == 0 {
        ActionType::MoveRight
    } else if sx == -1 && sy == 1 {
        ActionType::MoveDownLeft
    } else if sx == 0 && sy == 1 {
        ActionType::MoveDown
    } else if sx == 1 && sy == 1 {
        ActionType::MoveDownRight
    } else {
        ActionType::Wait
    }
}

fn dir_to_action(dx: i32, dy: i32) -> (r: ActionType)
    ensures
        r == dir_action(dx as int, dy as int),
{
    let sx: i32 = if dx < 0 {
        -1
    } else if dx > 0 {
        1
    } else {
        0
    };
    let sy: i32 = if dy < 0 {
        -1
    } else if dy > 0 {
        1
    } else {
        0
    };
    if sx == -1 && sy == -1 {
        ActionType::MoveUpLeft
    } else if sx == 0 && sy == -1 {
        ActionType::MoveUp
    } else if sx == 1 && sy == -1 {
        ActionType::MoveUpRight
    } else if sx == -1 && sy == 0 {
        ActionType::MoveLeft
    } else if sx == 1 && sy == 0 {
        ActionType::MoveRight
    } else if sx == -1 && sy == 1 {
        ActionType::MoveDownLeft
    } else if sx == 0 && sy == 1 {
        ActionType::MoveDown
    } else if sx == 1 && sy == 1 {
        ActionType::MoveDownRight
    } else {
        ActionType::Wait
    }
}

/// The per-entity "random" number a wandering monster uses: its number times 7,
/// wrapped to i32.
pub open spec fn wander_value(id: u32) -> i32 {
    ((id as i32) as int * 7) as i32
}

/// The four wandering steps, indexed by the wander value modulo 4.
pub open spec fn wander_step(k: int) -> (int, int) {
    if k == 0 {
        (-1, 0)
    } else if k == 1 {
        (1, 0)
    } else if k == 2 {
        (0, -1)
    } else {
        (0, 1)
    }
}

/// What a wandering monster does: step in its fixed direction when that cell is passable
/// and free, otherwise nothing.
pub open spec fn wander_result(e: Entity, map: GameMap, ents: Seq<Entity>) -> Option<ActionType> {
    let d = wander_step(wander_value(e.id) as int % 4);
    let nx = e.pos.x + d.0;
    let ny = e.pos.y + d.1;
    if map.passable_at(nx, ny) && !occupied(ents, nx, ny) {
        Some(dir_action(d.0, d.1))
    } else {
        None
    }
}

/// What a monster does once chasing does not apply: wander inside the alert radius,
/// idle beyond it.
pub open spec fn fallback_result(
    e: Entity,
    map: GameMap,
    ents: Seq<Entity>,
    player_pos: Coord,
    alert_radius: int,
) -> Option<ActionType> {
    if chebyshev(e.pos, player_pos) <= alert_radius {
        wander_result(e, map, ents)
    } else {
        None
    }
}

/// What a monster does given the step toward the player (`None` when there is none):
/// attack when adjacent; within `chase_radius` take the step; otherwise fall back.
pub open spec fn decided(
    e: Entity,
    map: GameMap,
    ents: Seq<Entity>,
    player_pos: Coord,
    alert_radius: int,
    chase_radius: int,
    step: Option<Coord>,
) -> Option<ActionType> {
    if chebyshev(e.pos, player_pos) <= 1 {
        Some(ActionType::MeleeAttack)
    } else if chebyshev(e.pos, player_pos) <= chase_radius && step is Some {
        Some(dir_action(step->0.x - e.pos.x, step->0.y - e.pos.y))
    } else {
        fallback_result(e, map, ents, player_pos, alert_radius)
    }
}

/// What `ai_action` decides: the step it acts on is the one `find_step_toward` gives
/// when the player is within `chase_radius` (and not adjacent), none otherwise.
pub open spec fn ai_decision(
    e: Entity,
    map: GameMap,
    ents: Seq<Entity>,
    player_pos: Coord,
    alert_radius: int,
    chase_radius: int,
) -> Option<ActionType> {
    let d = chebyshev(e.pos, player_pos);
    decided(e, map, ents, player_pos, alert_radius, chase_radius, if 1 < d <= chase_radius {
        step_toward(map, ents, e.pos, player_pos)
    } else {
        None
    })
}

/// The action chosen for a heading (dx, dy) moves a creature one cell in that heading:
/// its step in the movement table is (-1, 0 or 1 by the sign of dx, likewise for dy),
/// and no heading gives a non-movement action other than waiting for (0, 0).
pub proof fn lemma_heading_moves_that_way(dx: int, dy: int)
    ensures
        move_delta(dir_action(dx, dy)) == (
            if dx < 0 {
                -1int
            } else if dx > 0 {
                1int
            } else {
                0int
            },
            if dy < 0 {
                -1int
            } else if dy > 0 {
                1int
            } else {
                0int
            },
        ),
        (dx != 0 || dy != 0) ==> dir_action(dx, dy) != ActionType::Wait,
{
}

/// A monster chasing along the step `s` next to it moves exactly onto `s`: the action it
/// decides carries it by `s - pos` in the movement table.
pub proof fn lemma_chase_moves_onto_step(
    e: Entity,
    map: GameMap,
    ents: Seq<Entity>,
    player_pos: Coord,
    alert_radius: int,
    chase_radius: int,
    s: Coord,
)
    requires
        1 < chebyshev(e.pos, player_pos) <= chase_radius,
        crate::pathfinding::adjacent8(e.pos, s),
    ensures
        decided(e, map, ents, player_pos, alert_radius, chase_radius, Some(s)) matches Some(a)
            && e.pos.x + move_delta(a).0 == s.x && e.pos.y + move_delta(a).1 == s.y,
{
    lemma_heading_moves_that_way(s.x - e.pos.x, s.y - e.pos.y);
}

/// A wandering monster steps one cell straight (never diagonally) onto a passable cell
/// no creature stands on, and stays put when its cell in that direction is not such.
pub proof fn lemma_wander_moves_onto_free_floor(e: Entity, map: GameMap, ents: Seq<Entity>)
    ensures
        wander_result(e, map, ents) matches Some(a) ==> {
            let d = move_delta(a);
            &&& (d.0 == 0) != (d.1 == 0)
            &&& -1 <= d.0 <= 1 && -1 <= d.1 <= 1
            &&& map.passable_at(e.pos.x + d.0, e.pos.y + d.1)
            &&& !occupied(ents, e.pos.x + d.0, e.pos.y + d.1)
        },
{
    let d = wander_step(wander_value(e.id) as int % 4);
    lemma_heading_moves_that_way(d.0, d.1);
}

/// The monster's position stays inside the i32 grid after any one step.
pub open spec fn ai_fits(e: Entity) -> bool {
    &&& i32::MIN < e.pos.x < i32::MAX
    &&& i32::MIN < e.pos.y < i32::MAX
}

/// Chebyshev distance between two cells.
fn heuristic(a: Coord, b: Coord) -> (r: i64)
    ensures
        r == chebyshev(a, b),
{
    let dx = if a.x >= b.x {
        a.x as i64 - b.x as i64
    } else {
        b.x as i64 - a.x as i64
    };
    let dy = if a.y >= b.y {
        a.y as i64 - b.y as i64
    } else {
        b.y as i64 - a.y as i64
    };
    if dx >= dy {
        dx
    } else {
        dy
    }
}

/// What a monster does given the step toward the player that the path search chose
/// (`None` when it found none or was not asked): attack when adjacent; within
/// `chase_radius` take that step; otherwise, within `alert_radius`, its fixed wandering
/// step when that cell is passable and free; else idle.
pub fn decide_action(
    entity: &Entity,
    map: &GameMap,
    entities: &EntityManager,
    player_pos: Coord,
    alert_radius: i32,
    chase_radius: i32,
    step: Option<Coord>,
) -> (r: Option<ActionType>)
    requires
        map.wf(),
        ai_fits(*entity),
        step matches Some(s) ==> crate::pathfinding::adjacent8(entity.pos, s),
        1 < chebyshev(entity.pos, player_pos) <= alert_radius && (chebyshev(entity.pos, player_pos)
            > chase_radius || step is None) ==> wander_value(entity.id) >= 0,
    ensures
        r == decided(
            *entity,
            *map,
            entities.view_seq(),
            player_pos,
            alert_radius as int,
            chase_radius as int,
            step,
        ),
{
    let dist = heuristic(entity.pos, player_pos);
    if dist <= 1 {
        return Some(ActionType::MeleeAttack);
    }
    if dist <= chase_radius as i64 {
        if let Some(next) = step {
            let dx = next.x - entity.pos.x;
            let dy = next.y - entity.pos.y;
            return Some(dir_to_action(dx, dy));
        }
    }
    if dist <= alert_radius as i64 {
        let v: i32 = (((entity.id as i32) as i64) * 7) as i32;
        assert(v == wander_value(entity.id));
        let k = (v % 4) as usize;
        let (dx, dy): (i32, i32) = if k == 0 {
            (-1, 0)
        } else if k == 1 {
            (1, 0)
        } else if k == 2 {
            (0, -1)
        } else {
            (0, 1)
        };
        let nx = entity.pos.x + dx;
        let ny = entity.pos.y + dy;
        if map.is_passable(nx, ny) && entities.entities_in_radius(nx, ny, 0).len() == 0 {
            proof {
                lemma_free_cell(entities.view_seq(), nx as int, ny as int);
            }
            return Some(dir_to_action(dx, dy));
        }
        proof {
            if map.passable_at(nx as int, ny as int) {
                lemma_free_cell(entities.view_seq(), nx as int, ny as int);
            }
        }
    }
    None
}

/// Decide a monster's action toward the player: attack when adjacent; within
/// `chase_radius` search a path to the player (`find_step_toward`) and let
/// `decide_action` act on the step it gives, so a chasing monster moves toward the
/// second cell of the path `find_path` finds with budget 100.
pub fn ai_action(
    entity: &Entity,
    map: &GameMap,
    entities: &EntityManager,
    player_pos: Coord,
    alert_radius: i32,
    chase_radius: i32,
) -> (r: Option<ActionType>)
    requires
        map.wf(),
        ai_fits(*entity),
        1 < chebyshev(entity.pos, player_pos) <= alert_radius && (chebyshev(entity.pos, player_pos)
            > chase_radius || forall|p: Seq<Coord>|
            valid_path(*map, entities.view_seq(), entity.pos, player_pos, p) ==> path_cost(
                p.drop_last(),
            ) >= 100) ==> wander_value(entity.id) >= 0,
    ensures
        chebyshev(entity.pos, player_pos) <= 1 ==> r == Some(ActionType::MeleeAttack),
        chebyshev(entity.pos, player_pos) > 1 && chebyshev(entity.pos, player_pos) > chase_radius
            ==> r == fallback_result(
            *entity,
            *map,
            entities.view_seq(),
            player_pos,
            alert_radius as int,
        ),
        1 < chebyshev(entity.pos, player_pos) <= chase_radius ==> ((r == fallback_result(
            *entity,
            *map,
            entities.view_seq(),
            player_pos,
            alert_radius as int,
        ) && forall|p: Seq<Coord>|
            valid_path(*map, entities.view_seq(), entity.pos, player_pos, p) ==> path_cost(
                p.drop_last(),
            ) >= 100) || exists|p: Seq<Coord>|
            valid_path(*map, entities.view_seq(), entity.pos, player_pos, p) && path_cost(p) < 114
                && cheapest_within(*map, entities.view_seq(), entity.pos, player_pos, p, 100) && r
                == Some(dir_action(p[1].x - entity.pos.x, p[1].y - entity.pos.y))),
        r == ai_decision(*entity, *map, entities.view_seq(), player_pos, alert_radius as int, chase_radius as int),
        1 < chebyshev(entity.pos, player_pos) <= chase_radius ==> (step_toward(
            *map,
            entities.view_seq(),
            entity.pos,
            player_pos,
        ) matches Some(s) ==> (r matches Some(a) && entity.pos.x + move_delta(a).0 == s.x
            && entity.pos.y + move_delta(a).1 == s.y)),
{
    let dist = heuristic(entity.pos, player_pos);
    if dist <= 1 {
        return Some(ActionType::MeleeAttack);
    }
    let step = if dist <= chase_radius as i64 {
        find_step_toward(map, entity.pos, player_pos, entities)
    } else {
        None
    };
    proof {
        if let Some(next) = step {
            let p = choose|p: Seq<Coord>|
                valid_path(*map, entities.view_seq(), entity.pos, player_pos, p) && path_cost(p) < 114
                    && path_cost(p.drop_last()) < 100 && p[1] == next && cheapest_within(
                    *map,
                    entities.view_seq(),
                    entity.pos,
                    player_pos,
                    p,
                    100,
                );
            assert(p[0] == entity.pos);
            assert(crate::pathfinding::adjacent8(p[0], p[1]));
            if 1 < chebyshev(entity.pos, player_pos) <= chase_radius {
                lemma_chase_moves_onto_step(
                    *entity,
                    *map,
                    entities.view_seq(),
                    player_pos,
                    alert_radius as int,
                    chase_radius as int,
                    next,
                );
            }
        }
    }
    decide_action(entity, map, entities, player_pos, alert_radius, chase_radius, step)
}

/// The creatures within distance 0 of (x, y) are exactly those standing on it.
pub proof fn lemma_free_cell(s: Seq<Entity>, x: int, y: int)
    ensures
        (crate::entity::near_filter(s, x, y, 0).len() == 0) == !occupied(s, x, y),
{
    let pred = |e: Entity| crate::entity::near(e, x, y, 0);
    if occupied(s, x, y) {
        let i = choose|i: int| 0 <= i < s.len() && s[i].pos.x == x && s[i].pos.y == y;
        s.lemma_filter_contains(pred, i);
    } else {
        crate::pathfinding::lemma_filter_empty(s, pred);
    }
}

} // verus!
