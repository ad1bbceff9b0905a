use vstd::prelude::*;

use crate::entity::{near, near_filter, Entity, EntityManager};
use crate::map::{cell_index, in_bounds_spec, lemma_cell_index_bounds, lemma_cell_index_injective, map_cells, GameMap};
use crate::types::Coord;

verus! {

/// Some creature stands exactly on (x, y).
pub open spec fn occupied(s: Seq<Entity>, x: int, y: int) -> bool {
    exists|i: int| 0 <= i < s.len() && s[i].pos.x == x && s[i].pos.y == y
}

/// Two distinct cells that touch, diagonals included.
pub open spec fn adjacent8(a: Coord, b: Coord) -> bool {
    &&& a != b
    &&& -1 <= a.x - b.x <= 1
    &&& -1 <= a.y - b.y <= 1
}

/// The cost of one step: 14 on a diagonal, 10 straight.
pub open spec fn step_cost(a: Coord, b: Coord) -> int {
    if a.x != b.x && a.y != b.y {
        14
    } else {
        10
    }
}

/// The summed step costs along a path.
pub open spec fn path_cost(p: Seq<Coord>) -> int
    decreases p.len(),
{
    if p.len() < 2 {
        0
    } else {
        step_cost(p[0], p[1]) + path_cost(p.drop_first())
    }
}

/// A walk the A* search may return: from `start` to `goal` in touching steps, every
/// cell after the start passable, every cell strictly between the ends free of
/// creatures, and no cell visited twice.
pub open spec fn valid_path(
    map: GameMap,
    entities: Seq<Entity>,
    start: Coord,
    goal: Coord,
    p: Seq<Coord>,
) -> bool {
    &&& p.len() >= 2
    &&& p[0] == start
    &&& p[p.len() - 1] == goal
    &&& forall|i: int| 0 <= i < p.len() - 1 ==> adjacent8(#[trigger] p[i], p[i + 1])
    &&& forall|i: int| 1 <= i < p.len() ==> map.passable_at(#[trigger] p[i].x as int, p[i].y as int)
    &&& forall|i: int|
        1 <= i < p.len() - 1 ==> !occupied(entities, #[trigger] p[i].x as int, p[i].y as int)
    &&& p.no_duplicates()
}

/// No walk from `start` to `goal` whose steps before the last cost less than `budget`
/// is cheaper than `p`.
pub open spec fn cheapest_within(
    map: GameMap,
    entities: Seq<Entity>,
    start: Coord,
    goal: Coord,
    p: Seq<Coord>,
    budget: int,
) -> bool {
    forall|q: Seq<Coord>|
        valid_path(map, entities, start, goal, q) && path_cost(q.drop_last()) < budget
            ==> path_cost(p) <= path_cost(q)
}

/// Chebyshev distance, the search's estimate of the remaining cost.
pub open spec fn chebyshev(a: Coord, b: Coord) -> int {
    let dx = if a.x >= b.x {
        a.x - b.x
    } else {
        b.x - a.x
    };
    let dy = if a.y >= b.y {
        a.y - b.y
    } else {
        b.y - a.y
    };
    if dx >= dy {
        dx
    } else {
        dy
    }
}

fn heuristic(a: Coord, b: Coord) -> (r: i64)
    ensures
        r == chebyshev(a, b),
{
    let dx = if a.x >= b.x {
        a.x as i64 - b.x as i64
    } else {
        b.x as i64 - a.x as i64
    };
    let dy = if a.y >= b.y {
        a.y as i64 - b.y as i64
    } else {
        b.y as i64 - a.y as i64
    };
    if dx >= dy {
        dx
    } else {
        dy
    }
}

pub proof fn lemma_filter_empty(s: Seq<Entity>, pred: spec_fn(Entity) -> bool)
    requires
        forall|i: int| 0 <= i < s.len() ==> !pred(#[trigger] s[i]),
    ensures
        s.filter(pred).len() == 0,
    decreases s.len(),
{
    reveal_with_fuel(Seq::<_>::filter, 1);
    if s.len() > 0 {
        lemma_filter_empty(s.drop_last(), pred);
        assert(!pred(s.last()));
    }
}

/// Whether no creature stands on (x, y).
pub(crate) fn is_free(entities: &EntityManager, x: i32, y: i32) -> (r: bool)
    ensures
        r == !occupied(entities.view_seq(), x as int, y as int),
{
    let v = entities.entities_in_radius(x, y, 0);
    let ghost s = entities.view_seq();
    let ghost pred = |e: Entity| near(e, x as int, y as int, 0);
    proof {
        assert(v@.map_values(|e: &Entity| *e) == s.filter(pred));
        assert(v@.len() == s.filter(pred).len());
        if occupied(s, x as int, y as int) {
            let i = choose|i: int| 0 <= i < s.len() && s[i].pos.x == x && s[i].pos.y == y;
            s.lemma_filter_contains(pred, i);
        } else {
            lemma_filter_empty(s, pred);
        }
    }
    v.len() == 0
}

/// The eight directions, in the order the search tries them.
pub open spec fn direction(i: int) -> (int, int) {
    if i == 0 {
        (0, -1)
    } else if i == 1 {
        (0, 1)
    } else if i == 2 {
        (-1, 0)
    } else if i == 3 {
        (1, 0)
    } else if i == 4 {
        (-1, -1)
    } else if i == 5 {
        (1, -1)
    } else if i == 6 {
        (-1, 1)
    } else {
        (1, 1)
    }
}

fn direction_at(i: usize) -> (r: (i32, i32))
    requires
        i < 8,
    ensures
        (r.0 as int, r.1 as int) == direction(i as int),
{
    if i == 0 {
        (0, -1)
    } else if i == 1 {
        (0, 1)
    } else if i == 2 {
        (-1, 0)
    } else if i == 3 {
        (1, 0)
    } else if i == 4 {
        (-1, -1)
    } else if i == 5 {
        (1, -1)
    } else if i == 6 {
        (-1, 1)
    } else {
        (1, 1)
    }
}

/// An entry of the open list.
#[derive(Debug, Clone, Copy, PartialEq, Eq, Structural)]
struct AStarNode {
    pos: Coord,
    g: i64,
    f: i64,
}

/// A g value counted in the potential, capped at `b`.
spec fn cap(v: i64, b: int) -> int {
    if v < b {
        v as int
    } else {
        b
    }
}

/// The sum of capped g values over the grid.
spec fn gsum(s: Seq<i64>, b: int) -> int
    decreases s.len(),
{
    if s.len() == 0 {
        0
    } else {
        gsum(s.drop_last(), b) + cap(s.last(), b)
    }
}

proof fn lemma_gsum_nonneg(s: Seq<i64>, b: int)
    requires
        b >= 0,
        forall|i: int| 0 <= i < s.len() ==> s[i] >= 0,
    ensures
        gsum(s, b) >= 0,
    decreases s.len(),
{
    if s.len() > 0 {
        lemma_gsum_nonneg(s.drop_last(), b);
    }
}

proof fn lemma_gsum_update(s: Seq<i64>, b: int, i: int, v: i64)
    requires
        0 <= i < s.len(),
    ensures
        gsum(s.update(i, v), b) == gsum(s, b) - cap(s[i], b) + cap(v, b),
    decreases s.len(),
{
    if i == s.len() - 1 {
        assert(s.update(i, v).drop_last() =~= s.drop_last());
    } else {
        lemma_gsum_update(s.drop_last(), b, i, v);
        assert(s.update(i, v).drop_last() =~= s.drop_last().update(i, v));
    }
}

/// What the search has learned: the cost of the best known route to each grid cell and
/// the cell it came from.
spec fn known(g: Seq<i64>, start: Coord, c: Coord) -> bool {
    c == start || (in_bounds_spec(c.x as int, c.y as int) && g[cell_index(c.x as int, c.y as int)]
        != i64::MAX)
}

spec fn gval(g: Seq<i64>, start: Coord, c: Coord) -> int {
    if c == start {
        0
    } else {
        g[cell_index(c.x as int, c.y as int)] as int
    }
}

/// The search's invariant on one reached grid cell: it is not the start, it is passable,
/// free (unless it is the goal), and its predecessor is a reached neighbour whose cost
/// plus the step is at most its own, which stays below the bound `b`.
spec fn cell_ok(
    map: GameMap,
    ents: Seq<Entity>,
    g: Seq<i64>,
    came: Seq<Coord>,
    start: Coord,
    goal: Coord,
    b: int,
    c: Coord,
) -> bool {
    let p = came[cell_index(c.x as int, c.y as int)];
    let gc = g[cell_index(c.x as int, c.y as int)];
    &&& c != start
    &&& map.passable_at(c.x as int, c.y as int)
    &&& (c == goal || !occupied(ents, c.x as int, c.y as int))
    &&& known(g, start, p)
    &&& adjacent8(p, c)
    &&& gval(g, start, p) + step_cost(p, c) <= gc
    &&& 10 <= gc < b
}

#[verifier::opaque]
spec fn grid_ok(
    map: GameMap,
    ents: Seq<Entity>,
    g: Seq<i64>,
    came: Seq<Coord>,
    start: Coord,
    goal: Coord,
    b: int,
) -> bool {
    &&& g.len() == map_cells()
    &&& came.len() == map_cells()
    &&& forall|i: int| 0 <= i < g.len() ==> #[trigger] g[i] >= 0
    &&& forall|x: int, y: int|
        #![trigger g[cell_index(x, y)]]
        in_bounds_spec(x, y) && g[cell_index(x, y)] != i64::MAX ==> cell_ok(
            map,
            ents,
            g,
            came,
            start,
            goal,
            b,
            Coord { x: x as i32, y: y as i32 },
        )
}

/// A cell the search may step onto: not the start, passable, and free unless it is the
/// goal.
spec fn enterable(map: GameMap, ents: Seq<Entity>, start: Coord, goal: Coord, u: Coord) -> bool {
    &&& u != start
    &&& map.passable_at(u.x as int, u.y as int)
    &&& (u == goal || !occupied(ents, u.x as int, u.y as int))
}

/// The neighbour of `v` in direction `k`.
spec fn neighbour(v: Coord, k: int) -> Coord {
    Coord { x: (v.x + direction(k).0) as i32, y: (v.y + direction(k).1) as i32 }
}

/// Each of the first `d` neighbours of `v` that the search may step onto is reached at
/// no more than the cost of `v` plus the step.
spec fn relaxed_upto(
    map: GameMap,
    ents: Seq<Entity>,
    g: Seq<i64>,
    start: Coord,
    goal: Coord,
    v: Coord,
    d: int,
) -> bool {
    forall|k: int|
        0 <= k < d && #[trigger] enterable(map, ents, start, goal, neighbour(v, k)) ==> known(
            g,
            start,
            neighbour(v, k),
        ) && gval(g, start, neighbour(v, k)) <= gval(g, start, v) + step_cost(v, neighbour(v, k))
}

/// Some open entry is for `v`, with its estimate at most its current cost plus its
/// distance to the goal.
spec fn in_open(open: Seq<AStarNode>, g: Seq<i64>, start: Coord, goal: Coord, v: Coord) -> bool {
    exists|i: int|
        0 <= i < open.len() && open[i].pos == v && open[i].f <= gval(g, start, v) + chebyshev(v, goal)
}

/// Every open entry's estimate is at least the current cost of its cell plus that cell's
/// distance to the goal.
spec fn open_ok(open: Seq<AStarNode>, g: Seq<i64>, start: Coord, goal: Coord) -> bool {
    forall|i: int|
        0 <= i < open.len() ==> #[trigger] open[i].f >= gval(g, start, open[i].pos) + chebyshev(
            open[i].pos,
            goal,
        )
}

/// A reached cell is still to be expanded, or too costly to expand, or expanded.
spec fn settled(
    map: GameMap,
    ents: Seq<Entity>,
    g: Seq<i64>,
    open: Seq<AStarNode>,
    start: Coord,
    goal: Coord,
    m: int,
    v: Coord,
) -> bool {
    in_open(open, g, start, goal, v) || gval(g, start, v) >= m || relaxed_upto(
        map,
        ents,
        g,
        start,
        goal,
        v,
        8,
    )
}

/// The search's progress invariant while `cur` is being expanded (up to direction `d`):
/// every other reached cell is settled, the goal once reached has an open entry, and the
/// first `d` neighbours of `cur` are relaxed.
#[verifier::opaque]
spec fn search_ok(
    map: GameMap,
    ents: Seq<Entity>,
    g: Seq<i64>,
    open: Seq<AStarNode>,
    start: Coord,
    goal: Coord,
    m: int,
    cur: Coord,
    d: int,
) -> bool {
    &&& forall|v: Coord|
        #[trigger] known(g, start, v) && v != cur ==> settled(map, ents, g, open, start, goal, m, v)
    &&& known(g, start, goal) ==> in_open(open, g, start, goal, goal)
    &&& (known(g, start, cur) ==> settled(map, ents, g, open, start, goal, m, cur)
        || relaxed_upto(map, ents, g, start, goal, cur, d))
}

proof fn lemma_search_start(
    map: GameMap,
    ents: Seq<Entity>,
    g: Seq<i64>,
    open: Seq<AStarNode>,
    start: Coord,
    goal: Coord,
    m: int,
)
    requires
        start != goal,
        g.len() == map_cells(),
        forall|i: int| 0 <= i < g.len() ==> g[i] == i64::MAX,
        open.len() == 1,
        open[0].pos == start,
        open[0].f == chebyshev(start, goal),
    ensures
        search_ok(map, ents, g, open, start, goal, m, start, 8),
{
    reveal(search_ok);
    assert forall|v: Coord| #[trigger] known(g, start, v) && v != start implies settled(
        map,
        ents,
        g,
        open,
        start,
        goal,
        m,
        v,
    ) by {
        lemma_cell_index_bounds(v.x as int, v.y as int);
    }
    if known(g, start, goal) {
        lemma_cell_index_bounds(goal.x as int, goal.y as int);
    }
    assert(in_open(open, g, start, goal, start)) by {
        assert(open[0].pos == start);
    }
}

/// Taking an entry for `cur` off the open list keeps every other cell settled.
proof fn lemma_search_pop(
    map: GameMap,
    ents: Seq<Entity>,
    g: Seq<i64>,
    open: Seq<AStarNode>,
    best: int,
    start: Coord,
    goal: Coord,
    m: int,
    prev: Coord,
)
    requires
        search_ok(map, ents, g, open, start, goal, m, prev, 8),
        0 <= best < open.len(),
        open[best].pos != goal,
    ensures
        search_ok(map, ents, g, open.remove(best), start, goal, m, open[best].pos, 0),
{
    reveal(search_ok);
    let cur = open[best].pos;
    let o2 = open.remove(best);
    assert forall|v: Coord|
        in_open(open, g, start, goal, v) && v != cur implies in_open(o2, g, start, goal, v) by {
        let i = choose|i: int|
            0 <= i < open.len() && open[i].pos == v && open[i].f <= gval(g, start, v) + chebyshev(
                v,
                goal,
            );
        if i < best {
            assert(o2[i] == open[i]);
        } else {
            assert(i != best);
            assert(o2[i - 1] == open[i]);
        }
    }
    assert forall|v: Coord| #[trigger] known(g, start, v) && v != cur implies settled(
        map,
        ents,
        g,
        o2,
        start,
        goal,
        m,
        v,
    ) by {
        assert(settled(map, ents, g, open, start, goal, m, v));
    }
}

/// A cell too costly to expand is settled as it is.
proof fn lemma_search_capped(
    map: GameMap,
    ents: Seq<Entity>,
    g: Seq<i64>,
    open: Seq<AStarNode>,
    start: Coord,
    goal: Coord,
    m: int,
    cur: Coord,
)
    requires
        search_ok(map, ents, g, open, start, goal, m, cur, 0),
        gval(g, start, cur) >= m,
    ensures
        search_ok(map, ents, g, open, start, goal, m, cur, 8),
{
    reveal(search_ok);
}

/// A direction that the search skips, or whose neighbour is already reached cheaply
/// enough, is relaxed as it is.
proof fn lemma_search_skip(
    map: GameMap,
    ents: Seq<Entity>,
    g: Seq<i64>,
    open: Seq<AStarNode>,
    start: Coord,
    goal: Coord,
    m: int,
    cur: Coord,
    d: int,
)
    requires
        search_ok(map, ents, g, open, start, goal, m, cur, d),
        0 <= d < 8,
        !enterable(map, ents, start, goal, neighbour(cur, d)) || (known(g, start, neighbour(cur, d))
            && gval(g, start, neighbour(cur, d)) <= gval(g, start, cur) + step_cost(
            cur,
            neighbour(cur, d),
        )),
    ensures
        search_ok(map, ents, g, open, start, goal, m, cur, d + 1),
{
    reveal(search_ok);
}

proof fn lemma_in_open_push(
    open: Seq<AStarNode>,
    node: AStarNode,
    g: Seq<i64>,
    g2: Seq<i64>,
    start: Coord,
    goal: Coord,
    v: Coord,
)
    requires
        in_open(open, g, start, goal, v),
        gval(g2, start, v) == gval(g, start, v),
    ensures
        in_open(open.push(node), g2, start, goal, v),
{
    let i = choose|i: int|
        0 <= i < open.len() && open[i].pos == v && open[i].f <= gval(g, start, v) + chebyshev(
            v,
            goal,
        );
    assert(open.push(node)[i] == open[i]);
}

/// Splitting a walk at cell `i` splits its cost.
proof fn lemma_cost_split(p: Seq<Coord>, i: int)
    requires
        0 <= i < p.len(),
    ensures
        path_cost(p.take(i + 1)) + path_cost(p.skip(i)) == path_cost(p),
    decreases i,
{
    if i == 0 {
        assert(p.skip(0) =~= p);
        assert(path_cost(p.take(1)) == 0);
    } else {
        let q = p.drop_first();
        lemma_cost_split(q, i - 1);
        assert(p.take(i + 1).drop_first() =~= q.take(i));
        assert(p.skip(i) =~= q.skip(i - 1));
        assert(p.take(i + 1)[0] == p[0]);
        assert(p.take(i + 1)[1] == p[1]);
        assert(q.take(i).len() >= 1);
    }
}

/// The distance estimate never exceeds the cost of a walk between the two cells.
proof fn lemma_estimate_below_cost(q: Seq<Coord>)
    requires
        q.len() >= 1,
        forall|k: int| 0 <= k < q.len() - 1 ==> adjacent8(#[trigger] q[k], q[k + 1]),
    ensures
        chebyshev(q[0], q[q.len() - 1]) <= path_cost(q),
    decreases q.len(),
{
    if q.len() >= 2 {
        let r = q.drop_first();
        assert forall|k: int| 0 <= k < r.len() - 1 implies adjacent8(#[trigger] r[k], r[k + 1]) by {
            assert(r[k] == q[k + 1]);
            assert(adjacent8(q[k + 1], q[k + 2]));
        }
        lemma_estimate_below_cost(r);
        assert(adjacent8(q[0], q[1]));
        assert(r[r.len() - 1] == q[q.len() - 1]);
    }
}

/// Along a walk whose first `i + 1` cells are reached no dearer than along the walk,
/// either some open entry estimates at most the walk's cost, or the goal is reached no
/// dearer than the walk.
#[verifier::spinoff_prover]
proof fn lemma_frontier(
    map: GameMap,
    ents: Seq<Entity>,
    g: Seq<i64>,
    open: Seq<AStarNode>,
    start: Coord,
    goal: Coord,
    m: int,
    fmin: int,
    p: Seq<Coord>,
    i: int,
)
    requires
        forall|v: Coord| #[trigger] known(g, start, v) ==> settled(map, ents, g, open, start, goal, m, v),
        forall|e: int| 0 <= e < open.len() ==> fmin <= #[trigger] open[e].f,
        valid_path(map, ents, start, goal, p),
        path_cost(p.drop_last()) < m,
        0 <= i < p.len(),
        known(g, start, p[i]),
        gval(g, start, p[i]) <= path_cost(p.take(i + 1)),
    ensures
        fmin <= path_cost(p) || (known(g, start, goal) && gval(g, start, goal) <= path_cost(p)),
    decreases p.len() - i,
{
    if i == p.len() - 1 {
        assert(p.take(i + 1) =~= p);
    } else {
        let v = p[i];
        let u = p[i + 1];
        assert(settled(map, ents, g, open, start, goal, m, v));
        if in_open(open, g, start, goal, v) {
            let e = choose|e: int|
                0 <= e < open.len() && open[e].pos == v && open[e].f <= gval(g, start, v) + chebyshev(
                    v,
                    goal,
                );
            assert(fmin <= open[e].f);
            let q = p.skip(i);
            assert forall|k: int| 0 <= k < q.len() - 1 implies adjacent8(#[trigger] q[k], q[k + 1]) by {
                assert(q[k] == p[i + k]);
                assert(adjacent8(p[i + k], p[i + k + 1]));
            }
            lemma_estimate_below_cost(q);
            assert(q[0] == v);
            assert(q[q.len() - 1] == goal);
            lemma_cost_split(p, i);
        } else if gval(g, start, v) >= m {
            lemma_prefix_mono(p, i, p.len() - 2);
            assert(p.drop_last() =~= p.take(p.len() - 1));
        } else {
            assert(relaxed_upto(map, ents, g, start, goal, v, 8));
            assert(adjacent8(v, u));
            let k = lemma_adjacent_neighbour(v, u);
            assert(u != start) by {
                assert(p[0] == start);
                assert(p.no_duplicates());
            }
            assert(map.passable_at(u.x as int, u.y as int));
            if i + 1 < p.len() - 1 {
                assert(!occupied(ents, u.x as int, u.y as int));
            }
            assert(enterable(map, ents, start, goal, neighbour(v, k)));
            assert(p.take(i + 2) =~= p.take(i + 1).push(u));
            lemma_path_cost_push(p.take(i + 1), u);
            lemma_frontier(map, ents, g, open, start, goal, m, fmin, p, i + 1);
        }
    }
}

/// Lowering a reached cell's cost and opening it with its new estimate keeps every open
/// estimate at least the cell's cost plus its distance to the goal.
proof fn lemma_open_ok_update(
    open: Seq<AStarNode>,
    node: AStarNode,
    g: Seq<i64>,
    start: Coord,
    goal: Coord,
    ni: int,
    t: i64,
)
    requires
        open_ok(open, g, start, goal),
        forall|i: int| 0 <= i < open.len() ==> known(g, start, #[trigger] open[i].pos),
        g.len() == map_cells(),
        in_bounds_spec(node.pos.x as int, node.pos.y as int),
        ni == cell_index(node.pos.x as int, node.pos.y as int),
        node.pos != start,
        t < g[ni],
        node.f == t + chebyshev(node.pos, goal),
    ensures
        open_ok(open.push(node), g.update(ni, t), start, goal),
{
    lemma_cell_index_bounds(node.pos.x as int, node.pos.y as int);
    let o2 = open.push(node);
    let g2 = g.update(ni, t);
    assert forall|i: int| 0 <= i < o2.len() implies #[trigger] o2[i].f >= gval(g2, start, o2[i].pos)
        + chebyshev(o2[i].pos, goal) by {
        if i < open.len() {
            assert(o2[i] == open[i]);
            let c = open[i].pos;
            assert(known(g, start, c));
            assert(open[i].f >= gval(g, start, c) + chebyshev(c, goal));
            if c != start {
                lemma_cell_index_bounds(c.x as int, c.y as int);
            }
        } else {
            assert(o2[i] == node);
        }
    }
}

/// Lowering the cost of the neighbour `u` of `cur` and opening it keeps the invariant and
/// relaxes one more direction.
proof fn lemma_search_update(
    map: GameMap,
    ents: Seq<Entity>,
    g: Seq<i64>,
    open: Seq<AStarNode>,
    start: Coord,
    goal: Coord,
    m: int,
    cur: Coord,
    d: int,
    t: i64,
    node: AStarNode,
)
    requires
        search_ok(map, ents, g, open, start, goal, m, cur, d),
        g.len() == map_cells(),
        0 <= d < 8,
        known(g, start, cur),
        cur != start ==> in_bounds_spec(cur.x as int, cur.y as int),
        node.pos == neighbour(cur, d),
        node.pos != start,
        node.pos != cur,
        in_bounds_spec(node.pos.x as int, node.pos.y as int),
        t != i64::MAX,
        t == gval(g, start, cur) + step_cost(cur, node.pos),
        t < g[cell_index(node.pos.x as int, node.pos.y as int)],
        node.f == t + chebyshev(node.pos, goal),
    ensures
        search_ok(
            map,
            ents,
            g.update(cell_index(node.pos.x as int, node.pos.y as int), t),
            open.push(node),
            start,
            goal,
            m,
            cur,
            d + 1,
        ),
{
    reveal(search_ok);
    let u = node.pos;
    let ui = cell_index(u.x as int, u.y as int);
    lemma_cell_index_bounds(u.x as int, u.y as int);
    let g2 = g.update(ui, t);
    let o2 = open.push(node);
    assert(o2[open.len() as int] == node);
    assert(gval(g2, start, u) == t);
    assert(in_open(o2, g2, start, goal, u));
    assert forall|w: Coord| known(g, start, w) implies known(g2, start, w) && (w != u ==> gval(
        g2,
        start,
        w,
    ) == gval(g, start, w)) && gval(g2, start, w) <= gval(g, start, w) by {
        if w != start {
            lemma_cell_index_bounds(w.x as int, w.y as int);
            if cell_index(w.x as int, w.y as int) == ui {
                lemma_cell_index_injective(w.x as int, w.y as int, u.x as int, u.y as int);
            }
        }
    }
    assert(known(g2, start, u));
    assert forall|v: Coord| known(g, start, v) && v != u && relaxed_upto(map, ents, g, start, goal, v, 8) implies relaxed_upto(
        map,
        ents,
        g2,
        start,
        goal,
        v,
        8,
    ) by {
        assert forall|k: int|
            0 <= k < 8 && #[trigger] enterable(map, ents, start, goal, neighbour(v, k)) implies known(
            g2,
            start,
            neighbour(v, k),
        ) && gval(g2, start, neighbour(v, k)) <= gval(g2, start, v) + step_cost(v, neighbour(v, k)) by {
        }
    }
    assert forall|v: Coord| #[trigger] known(g2, start, v) && v != cur implies settled(
        map,
        ents,
        g2,
        o2,
        start,
        goal,
        m,
        v,
    ) by {
        if v == u {
        } else {
            if v != start {
                lemma_cell_index_bounds(v.x as int, v.y as int);
                if cell_index(v.x as int, v.y as int) == ui {
                    lemma_cell_index_injective(v.x as int, v.y as int, u.x as int, u.y as int);
                }
            }
            assert(known(g, start, v));
            assert(settled(map, ents, g, open, start, goal, m, v));
            if in_open(open, g, start, goal, v) {
                lemma_in_open_push(open, node, g, g2, start, goal, v);
            }
        }
    }
    if known(g2, start, goal) && goal != u {
        if goal != start {
            lemma_cell_index_bounds(goal.x as int, goal.y as int);
            if cell_index(goal.x as int, goal.y as int) == ui {
                lemma_cell_index_injective(goal.x as int, goal.y as int, u.x as int, u.y as int);
            }
        }
        assert(known(g, start, goal));
        lemma_in_open_push(open, node, g, g2, start, goal, goal);
    }
    assert(known(g, start, cur));
    if !settled(map, ents, g, open, start, goal, m, cur) {
        assert(relaxed_upto(map, ents, g, start, goal, cur, d));
        assert forall|k: int|
            0 <= k < d + 1 && #[trigger] enterable(map, ents, start, goal, neighbour(cur, k)) implies known(
            g2,
            start,
            neighbour(cur, k),
        ) && gval(g2, start, neighbour(cur, k)) <= gval(g2, start, cur) + step_cost(
            cur,
            neighbour(cur, k),
        ) by {
            if k < d {
                assert(known(g, start, neighbour(cur, k)));
            }
        }
    } else {
        if in_open(open, g, start, goal, cur) {
            let i = choose|i: int|
                0 <= i < open.len() && open[i].pos == cur && open[i].f <= gval(g, start, cur)
                    + chebyshev(cur, goal);
            assert(o2[i] == open[i]);
            assert(in_open(o2, g2, start, goal, cur));
        } else if gval(g, start, cur) >= m {
        } else {
            assert(relaxed_upto(map, ents, g, start, goal, cur, 8));
            assert forall|k: int|
                0 <= k < 8 && #[trigger] enterable(map, ents, start, goal, neighbour(cur, k)) implies known(
                g2,
                start,
                neighbour(cur, k),
            ) && gval(g2, start, neighbour(cur, k)) <= gval(g2, start, cur) + step_cost(
                cur,
                neighbour(cur, k),
            ) by {
                assert(known(g, start, neighbour(cur, k)));
            }
        }
    }
}

/// Once every direction of `cur` is relaxed, every reached cell is settled.
proof fn lemma_search_finish(
    map: GameMap,
    ents: Seq<Entity>,
    g: Seq<i64>,
    open: Seq<AStarNode>,
    start: Coord,
    goal: Coord,
    m: int,
    cur: Coord,
)
    requires
        search_ok(map, ents, g, open, start, goal, m, cur, 8),
    ensures
        forall|v: Coord| #[trigger] known(g, start, v) ==> settled(map, ents, g, open, start, goal, m, v),
        known(g, start, goal) ==> in_open(open, g, start, goal, goal),
{
    reveal(search_ok);
}

/// Reached cells can be carried over to a check centred on another cell.
proof fn lemma_search_rebase(
    map: GameMap,
    ents: Seq<Entity>,
    g: Seq<i64>,
    open: Seq<AStarNode>,
    start: Coord,
    goal: Coord,
    m: int,
    cur: Coord,
    c2: Coord,
)
    requires
        search_ok(map, ents, g, open, start, goal, m, cur, 8),
    ensures
        search_ok(map, ents, g, open, start, goal, m, c2, 8),
{
    reveal(search_ok);
}

/// Appending a cell to a walk adds the cost of the last step.
proof fn lemma_path_cost_push(s: Seq<Coord>, x: Coord)
    requires
        s.len() >= 1,
    ensures
        path_cost(s.push(x)) == path_cost(s) + step_cost(s[s.len() - 1], x),
    decreases s.len(),
{
    let t = s.push(x);
    assert(t[0] == s[0]);
    if s.len() == 1 {
        assert(t.drop_first() =~= seq![x]);
        assert(t[1] == x);
        assert(path_cost(seq![x]) == 0);
        assert(path_cost(s) == 0);
    } else {
        lemma_path_cost_push(s.drop_first(), x);
        assert(t.drop_first() =~= s.drop_first().push(x));
        assert(t[1] == s[1]);
        assert(s.drop_first()[s.len() - 2] == s[s.len() - 1]);
    }
}

/// The cost of a walk's prefixes grows with their length.
proof fn lemma_prefix_mono(p: Seq<Coord>, i: int, j: int)
    requires
        0 <= i <= j < p.len(),
    ensures
        path_cost(p.take(i + 1)) <= path_cost(p.take(j + 1)),
    decreases j - i,
{
    if i < j {
        lemma_prefix_mono(p, i, j - 1);
        assert(p.take(j + 1) =~= p.take(j).push(p[j]));
        lemma_path_cost_push(p.take(j), p[j]);
    }
}

/// Each direction of the search is a touching cell, and every touching cell is one of the
/// directions.
proof fn lemma_adjacent_neighbour(v: Coord, u: Coord) -> (k: int)
    requires
        adjacent8(v, u),
    ensures
        0 <= k < 8,
        neighbour(v, k) == u,
{
    let dx = u.x - v.x;
    let dy = u.y - v.y;
    if dx == 0 && dy == -1 {
        0
    } else if dx == 0 && dy == 1 {
        1
    } else if dx == -1 && dy == 0 {
        2
    } else if dx == 1 && dy == 0 {
        3
    } else if dx == -1 && dy == -1 {
        4
    } else if dx == 1 && dy == -1 {
        5
    } else if dx == -1 && dy == 1 {
        6
    } else {
        7
    }
}

/// With nothing left open and the goal never reached, every cell of a walk whose
/// steps before the last stay under the bound is reached at no more than its cost along
/// the walk.
proof fn lemma_reach_prefix(
    map: GameMap,
    ents: Seq<Entity>,
    g: Seq<i64>,
    start: Coord,
    goal: Coord,
    m: int,
    p: Seq<Coord>,
    i: int,
)
    requires
        forall|v: Coord|
            #[trigger] known(g, start, v) ==> settled(map, ents, g, Seq::<AStarNode>::empty(), start, goal, m, v),
        valid_path(map, ents, start, goal, p),
        path_cost(p.take(p.len() - 1)) < m,
        0 <= i < p.len(),
    ensures
        known(g, start, p[i]),
        gval(g, start, p[i]) <= path_cost(p.take(i + 1)),
    decreases i,
{
    if i == 0 {
        assert(p.take(1) =~= seq![start]);
    } else {
        lemma_reach_prefix(map, ents, g, start, goal, m, p, i - 1);
        let v = p[i - 1];
        let u = p[i];
        lemma_prefix_mono(p, i - 1, p.len() - 2);
        assert(settled(map, ents, g, Seq::<AStarNode>::empty(), start, goal, m, v));
        assert(!in_open(Seq::<AStarNode>::empty(), g, start, goal, v));
        assert(relaxed_upto(map, ents, g, start, goal, v, 8));
        assert(adjacent8(v, u));
        let k = lemma_adjacent_neighbour(v, u);
        assert(u != start) by {
            assert(p[0] == start);
            assert(p.no_duplicates());
        }
        assert(map.passable_at(u.x as int, u.y as int));
        if i < p.len() - 1 {
            assert(!occupied(ents, u.x as int, u.y as int));
        }
        assert(enterable(map, ents, start, goal, neighbour(v, k)));
        assert(p.take(i + 1) =~= p.take(i).push(u));
        lemma_path_cost_push(p.take(i), u);
    }
}

/// When the search runs out of open cells without reaching the goal, every walk to the
/// goal spends at least the bound before its last step.
proof fn lemma_search_none(
    map: GameMap,
    ents: Seq<Entity>,
    g: Seq<i64>,
    start: Coord,
    goal: Coord,
    m: int,
    p: Seq<Coord>,
)
    requires
        search_ok(map, ents, g, Seq::<AStarNode>::empty(), start, goal, m, start, 8),
        valid_path(map, ents, start, goal, p),
    ensures
        path_cost(p.drop_last()) >= m,
{
    lemma_search_finish(map, ents, g, Seq::<AStarNode>::empty(), start, goal, m, start);
    assert(p.drop_last() =~= p.take(p.len() - 1));
    if path_cost(p.drop_last()) < m {
        lemma_reach_prefix(map, ents, g, start, goal, m, p, p.len() - 1);
        assert(!in_open(Seq::<AStarNode>::empty(), g, start, goal, goal));
    }
}

/// The search's working state: the best known cost of each grid cell, the cell each
/// was reached from, and the open list.
type SearchState = (Seq<i64>, Seq<Coord>, Seq<AStarNode>);

/// The place, among the first `k` open entries, of the one the search takes next: the
/// lowest estimate, then the lowest cost, then the earliest.
spec fn best_among(open: Seq<AStarNode>, k: int) -> int
    decreases k,
{
    if k <= 1 {
        0
    } else {
        let b = best_among(open, k - 1);
        if open[k - 1].f < open[b].f || (open[k - 1].f == open[b].f && open[k - 1].g < open[b].g) {
            k - 1
        } else {
            b
        }
    }
}

/// The cost of a step in direction `k`.
spec fn dir_cost(k: int) -> int {
    if direction(k).0 != 0 && direction(k).1 != 0 {
        14
    } else {
        10
    }
}

/// The state after trying direction `k` from `cur` (cost `cg`): a neighbour that is not
/// the start (once away from it), passable, free unless it is the goal, and reached more
/// cheaply than before gets the new cost, `cur` as the cell it came from, and an open
/// entry; otherwise nothing changes.
#[verifier::opaque]
spec fn relax_dir(
    map: GameMap,
    ents: Seq<Entity>,
    start: Coord,
    goal: Coord,
    cur: Coord,
    cg: int,
    st: SearchState,
    k: int,
) -> SearchState {
    let nb = neighbour(cur, k);
    let i = cell_index(nb.x as int, nb.y as int);
    let t = cg + dir_cost(k);
    if (nb.x == start.x && nb.y == start.y && cg > 0) || !map.passable_at(nb.x as int, nb.y as int)
        || (!(nb.x == goal.x && nb.y == goal.y) && occupied(ents, nb.x as int, nb.y as int)) || !(t
        < st.0[i]) {
        st
    } else {
        (
            st.0.update(i, t as i64),
            st.1.update(i, cur),
            st.2.push(AStarNode { pos: nb, g: t as i64, f: (t + chebyshev(nb, goal)) as i64 }),
        )
    }
}

/// The state after trying the first `d` directions from `cur`.
spec fn relax_upto(
    map: GameMap,
    ents: Seq<Entity>,
    start: Coord,
    goal: Coord,
    cur: Coord,
    cg: int,
    st: SearchState,
    d: int,
) -> SearchState
    decreases d,
{
    if d <= 0 {
        st
    } else {
        relax_dir(map, ents, start, goal, cur, cg, relax_upto(map, ents, start, goal, cur, cg, st, d - 1), d - 1)
    }
}

/// Trying a direction that is skipped leaves the state as it is.
proof fn lemma_relax_skip(
    map: GameMap,
    ents: Seq<Entity>,
    start: Coord,
    goal: Coord,
    cur: Coord,
    cg: int,
    st0: SearchState,
    d: int,
    st: SearchState,
)
    requires
        0 <= d,
        st == relax_upto(map, ents, start, goal, cur, cg, st0, d),
        (neighbour(cur, d).x == start.x && neighbour(cur, d).y == start.y && cg > 0)
            || !map.passable_at(neighbour(cur, d).x as int, neighbour(cur, d).y as int) || (!(
        neighbour(cur, d).x == goal.x && neighbour(cur, d).y == goal.y) && occupied(
            ents,
            neighbour(cur, d).x as int,
            neighbour(cur, d).y as int,
        )) || !(cg + dir_cost(d) < st.0[cell_index(
            neighbour(cur, d).x as int,
            neighbour(cur, d).y as int,
        )]),
    ensures
        st == relax_upto(map, ents, start, goal, cur, cg, st0, d + 1),
{
    reveal(relax_dir);
}

/// Trying a direction that improves a neighbour records it as `relax_dir` says.
proof fn lemma_relax_update(
    map: GameMap,
    ents: Seq<Entity>,
    start: Coord,
    goal: Coord,
    cur: Coord,
    cg: int,
    st0: SearchState,
    d: int,
    st: SearchState,
    t: i64,
    node: AStarNode,
)
    requires
        0 <= d,
        st == relax_upto(map, ents, start, goal, cur, cg, st0, d),
        !(neighbour(cur, d).x == start.x && neighbour(cur, d).y == start.y && cg > 0),
        map.passable_at(neighbour(cur, d).x as int, neighbour(cur, d).y as int),
        (neighbour(cur, d).x == goal.x && neighbour(cur, d).y == goal.y) || !occupied(
            ents,
            neighbour(cur, d).x as int,
            neighbour(cur, d).y as int,
        ),
        t == cg + dir_cost(d),
        t < st.0[cell_index(neighbour(cur, d).x as int, neighbour(cur, d).y as int)],
        node == (AStarNode { pos: neighbour(cur, d), g: t, f: (t + chebyshev(neighbour(cur, d), goal)) as i64 }),
    ensures
        (
            st.0.update(cell_index(neighbour(cur, d).x as int, neighbour(cur, d).y as int), t),
            st.1.update(cell_index(neighbour(cur, d).x as int, neighbour(cur, d).y as int), cur),
            st.2.push(node),
        ) == relax_upto(map, ents, start, goal, cur, cg, st0, d + 1),
{
    reveal(relax_dir);
}

/// The walk back from `c` along the recorded predecessors to the start, ending in `c`.
spec fn trace_back(came: Seq<Coord>, start: Coord, c: Coord, fuel: nat) -> Seq<Coord>
    decreases fuel,
{
    if c == start || fuel == 0 {
        seq![c]
    } else {
        trace_back(came, start, came[cell_index(c.x as int, c.y as int)], (fuel - 1) as nat).push(c)
    }
}

/// What the search returns from state `st`, taking at most `fuel` more entries: the
/// best open entry is taken; at the goal the recorded walk back is the path; an entry
/// whose cost reached `max` is dropped; any other is expanded in all eight directions.
spec fn search_run(
    map: GameMap,
    ents: Seq<Entity>,
    start: Coord,
    goal: Coord,
    max: int,
    st: SearchState,
    fuel: nat,
) -> Option<Seq<Coord>>
    decreases fuel,
{
    if fuel == 0 || st.2.len() == 0 {
        None
    } else {
        let bi = best_among(st.2, st.2.len() as int);
        let cur = st.2[bi];
        let rest = st.2.remove(bi);
        if cur.pos == goal {
            Some(trace_back(st.1, start, goal, (gval(st.0, start, goal) + 1) as nat))
        } else {
            let cg = gval(st.0, start, cur.pos);
            if cg >= max {
                search_run(map, ents, start, goal, max, (st.0, st.1, rest), (fuel - 1) as nat)
            } else {
                search_run(
                    map,
                    ents,
                    start,
                    goal,
                    max,
                    relax_upto(map, ents, start, goal, cur.pos, cg, (st.0, st.1, rest), 8),
                    (fuel - 1) as nat,
                )
            }
        }
    }
}

/// The state the search starts from: no cell reached, the start alone open.
spec fn search_start(start: Coord, goal: Coord) -> SearchState {
    (
        Seq::new(262144, |i: int| i64::MAX),
        Seq::new(262144, |i: int| start),
        seq![AStarNode { pos: start, g: 0, f: chebyshev(start, goal) as i64 }],
    )
}

/// The enough-fuel bound for a search from the start state: one more than its potential.
spec fn search_fuel(start: Coord, goal: Coord, max: int) -> nat {
    (1 + 2 * gsum(search_start(start, goal).0, (if max > 0 {
        max
    } else {
        0
    }) + 14) + 1) as nat
}

/// The path `find_path` returns: the empty path when start and goal coincide, otherwise
/// what the search above yields from its start state.
pub closed spec fn path_search(
    map: GameMap,
    ents: Seq<Entity>,
    start: Coord,
    goal: Coord,
    max: int,
) -> Option<Seq<Coord>> {
    if start == goal {
        Some(Seq::<Coord>::empty())
    } else {
        search_run(map, ents, start, goal, max, search_start(start, goal), search_fuel(start, goal, max))
    }
}

/// The step `find_step_toward` takes: none when start and goal coincide, otherwise the
/// second cell of the path `find_path` finds with budget 100, if it finds one.
pub open spec fn step_toward(map: GameMap, ents: Seq<Entity>, start: Coord, goal: Coord) -> Option<
    Coord,
> {
    if start == goal {
        None
    } else {
        match path_search(map, ents, start, goal, 100) {
            Some(p) => Some(p[1]),
            None => None,
        }
    }
}

/// A* search from `start` to `goal` over passable cells, moving in eight directions
/// (10 per straight step, 14 per diagonal), never through a cell held by a creature
/// except the goal itself, and not expanding cells whose cost reached `max_steps`.
/// `Some(empty)` when start and goal coincide; otherwise a found path runs from the
/// start to the goal, costs less than `max_steps + 14`, and is no dearer than any walk
/// whose steps before the last cost less than `max_steps`; `None` only when every walk
/// spends at least `max_steps` before its last step. Among equally cheap paths the one
/// returned is fixed: it is `path_search`, which takes open entries lowest estimate
/// first, then lowest cost, then earliest, and tries the eight directions in the order of
/// `direction`.
pub fn find_path(
    map: &GameMap,
    start: Coord,
    goal: Coord,
    entities: &EntityManager,
    max_steps: i32,
) -> (r: Option<Vec<Coord>>)
    requires
        map.wf(),
        start != goal ==> i32::MIN < start.x < i32::MAX && i32::MIN < start.y < i32::MAX,
    ensures
        start == goal ==> (r matches Some(p) && p@.len() == 0),
        start != goal ==> (r matches Some(p) ==> path_cost(p@.drop_last()) < max_steps),
        start != goal ==> (r matches Some(p) ==> valid_path(
            *map,
            entities.view_seq(),
            start,
            goal,
            p@,
        ) && path_cost(p@) < (if max_steps > 0 {
            max_steps as int
        } else {
            0
        }) + 14),
        start != goal && r is None ==> forall|p: Seq<Coord>|
            valid_path(*map, entities.view_seq(), start, goal, p) ==> path_cost(p.drop_last())
                >= max_steps,
        start != goal ==> (r matches Some(path) ==> cheapest_within(
            *map,
            entities.view_seq(),
            start,
            goal,
            path@,
            max_steps as int,
        )),
        r is Some == path_search(*map, entities.view_seq(), start, goal, max_steps as int) is Some,
        r matches Some(p) ==> p@ == path_search(*map, entities.view_seq(), start, goal, max_steps as int)->0,
{
    if start == goal {
        let r: Vec<Coord> = Vec::new();
        assert(r@ =~= Seq::<Coord>::empty());
        return Some(r);
    }
    let ghost ents = entities.view_seq();
    let ghost b: int = (if max_steps > 0 {
        max_steps as int
    } else {
        0
    }) + 14;
    let n: usize = 262144;
    let mut g: Vec<i64> = vec![i64::MAX; n];
    let mut came: Vec<Coord> = vec![start; n];
    let mut open: Vec<AStarNode> = Vec::new();
    open.push(AStarNode { pos: start, g: 0, f: heuristic(start, goal) });
    let ghost target = search_run(*map, ents, start, goal, max_steps as int, search_start(start, goal), search_fuel(start, goal, max_steps as int));
    let ghost mut fuel: nat = search_fuel(start, goal, max_steps as int);
    proof {
        assert(g@ =~= search_start(start, goal).0);
        assert(came@ =~= search_start(start, goal).1);
        assert(open@ =~= search_start(start, goal).2);
        reveal(grid_ok);
        assert forall|i: int| 0 <= i < g@.len() implies #[trigger] g@[i] >= 0 by {}
        assert forall|x: int, y: int|
            #![trigger g@[cell_index(x, y)]]
            in_bounds_spec(x, y) && g@[cell_index(x, y)] != i64::MAX implies cell_ok(
            *map,
            ents,
            g@,
            came@,
            start,
            goal,
            b,
            Coord { x: x as i32, y: y as i32 },
        ) by {
            lemma_cell_index_bounds(x, y);
        }
        assert(known(g@, start, open@[0].pos));
        lemma_search_start(*map, ents, g@, open@, start, goal, max_steps as int);
    }
    while open.len() > 0
        invariant
            search_ok(*map, ents, g@, open@, start, goal, max_steps as int, start, 8),
            map.wf(),
            start != goal,
            i32::MIN < start.x < i32::MAX,
            i32::MIN < start.y < i32::MAX,
            ents == entities.view_seq(),
            b == (if max_steps > 0 {
                max_steps as int
            } else {
                0
            }) + 14,
            grid_ok(*map, ents, g@, came@, start, goal, b),
            parents_below(g@, came@, start, max_steps as int),
            forall|i: int| 0 <= i < open@.len() ==> known(g@, start, #[trigger] open@[i].pos),
            open_ok(open@, g@, start, goal),
            fuel > open@.len() + 2 * gsum(g@, b),
            search_run(*map, ents, start, goal, max_steps as int, (g@, came@, open@), fuel) == target,
            target == path_search(*map, ents, start, goal, max_steps as int),
        decreases open@.len() + 2 * gsum(g@, b),
    {
        proof {
            lemma_grid_facts(*map, ents, g@, came@, start, goal, b);
            lemma_gsum_nonneg(g@, b);
        }
        let ghost m0 = open@.len() + 2 * gsum(g@, b);
        let mut best: usize = 0;
        let mut k: usize = 1;
        while k < open.len()
            invariant
                0 <= best < open@.len(),
                1 <= k <= open@.len(),
                forall|i: int| 0 <= i < k ==> open@[best as int].f <= #[trigger] open@[i].f,
                best as int == best_among(open@, k as int),
            decreases open@.len() - k,
        {
            if open[k].f < open[best].f || (open[k].f == open[best].f && open[k].g < open[best].g) {
                best = k;
            }
            k = k + 1;
        }
        let ghost open_before = open@;
        let ghost st_top: SearchState = (g@, came@, open@);
        let current = open.remove(best);
        let ghost st_pop: SearchState = (g@, came@, open@);
        proof {
            assert(best as int == best_among(open_before, open_before.len() as int));
            assert(open_before[best as int] == current);
            assert(known(g@, start, current.pos));
            assert forall|i: int| 0 <= i < open@.len() implies known(g@, start, #[trigger] open@[i].pos) by {
                if i < best {
                    assert(open@[i] == open_before[i]);
                } else {
                    assert(open@[i] == open_before[i + 1]);
                }
            }
            assert forall|i: int| 0 <= i < open@.len() implies #[trigger] open@[i].f >= gval(
                g@,
                start,
                open@[i].pos,
            ) + chebyshev(open@[i].pos, goal) by {
                if i < best {
                    assert(open@[i] == open_before[i]);
                } else {
                    assert(open@[i] == open_before[i + 1]);
                }
            }
        }
        if current.pos == goal {
            proof {
                lemma_search_finish(*map, ents, g@, open_before, start, goal, max_steps as int, start);
                assert(open_before[best as int].f >= gval(g@, start, goal) + chebyshev(goal, goal));
                assert forall|p: Seq<Coord>|
                    valid_path(*map, ents, start, goal, p) && path_cost(p.drop_last())
                        < max_steps implies gval(g@, start, goal) <= path_cost(p) by {
                    lemma_frontier(
                        *map,
                        ents,
                        g@,
                        open_before,
                        start,
                        goal,
                        max_steps as int,
                        open_before[best as int].f as int,
                        p,
                        0,
                    );
                }
            }
            let mut path: Vec<Coord> = Vec::new();
            path.push(goal);
            let mut cur = goal;
            let ghost gp = came@[cell_index(goal.x as int, goal.y as int)];
            let ghost tb = trace_back(came@, start, goal, (gval(g@, start, goal) + 1) as nat);
            let ghost mut fr: nat = (gval(g@, start, goal) + 1) as nat;
            proof {
                assert(target == Some(tb));
                lemma_chain_start(*map, ents, g@, came@, start, goal, b);
                assert(path@ =~= seq![goal]);
                lemma_known_gval(*map, ents, g@, came@, start, goal, b, goal);
                assert(g@[cell_index(goal.x as int, goal.y as int)] != i64::MAX);
                assert(gval(g@, start, gp) < max_steps);
            }
            while cur != start
                invariant
                    map.wf(),
                    start != goal,
                    grid_ok(*map, ents, g@, came@, start, goal, b),
                    g@.len() == map_cells(),
                    came@.len() == map_cells(),
                    chain_ok(*map, ents, g@, start, goal, b, path@, cur),
                    forall|p: Seq<Coord>|
                        valid_path(*map, ents, start, goal, p) && path_cost(p.drop_last())
                            < max_steps ==> gval(g@, start, goal) <= path_cost(p),
                    gp == came@[cell_index(goal.x as int, goal.y as int)],
                    gval(g@, start, gp) < max_steps,
                    path@.len() == 1 ==> cur == goal,
                    path@.len() >= 2 ==> path@[path@.len() - 2] == gp && path_cost(path@.drop_last())
                        + gval(g@, start, cur) <= gval(g@, start, gp),
                    fr > gval(g@, start, cur),
                    tb == trace_back(came@, start, cur, fr) + path@.drop_first(),
                decreases gval(g@, start, cur),
            {
                let ghost old_path = path@;
                proof {
                    lemma_chain_step(*map, ents, g@, came@, start, goal, b, old_path, cur);
                    lemma_cell_index_bounds(cur.x as int, cur.y as int);
                }
                let ci = map.index(cur.x, cur.y);
                let prev = came[ci];
                let ghost old_cur = cur;
                path.insert(0, prev);
                cur = prev;
                proof {
                    assert(path@ =~= seq![prev] + old_path);
                    lemma_chain_head(*map, ents, g@, start, goal, b, old_path, old_cur);
                    lemma_budget_step(g@, start, goal, gp, old_path, prev, old_cur);
                    assert(gval(g@, start, path@[0]) < gval(g@, start, path@[1]));
                    assert(old_path[0] == old_cur);
                    assert(trace_back(came@, start, old_cur, fr) == trace_back(came@, start, prev, (fr - 1) as nat).push(old_cur));
                    assert(path@.drop_first() =~= old_path);
                    assert(old_path =~= seq![old_cur] + old_path.drop_first());
                    assert(trace_back(came@, start, prev, (fr - 1) as nat) + path@.drop_first() =~= trace_back(came@, start, old_cur, fr) + old_path.drop_first());
                    fr = (fr - 1) as nat;
                }
            }
            proof {
                lemma_chain_final(*map, ents, g@, start, goal, b, path@);
                assert(path@ =~= seq![start] + path@.drop_first());
            }
            return Some(path);
        }
        proof {
            lemma_search_pop(*map, ents, g@, open_before, best as int, start, goal, max_steps as int, start);
        }
        let cur_g: i64 = if current.pos == start {
            0
        } else {
            proof {
                lemma_cell_index_bounds(current.pos.x as int, current.pos.y as int);
            }
            g[map.index(current.pos.x, current.pos.y)]
        };
        proof {
            lemma_known_gval(*map, ents, g@, came@, start, goal, b, current.pos);
        }
        proof {
            assert(cur_g as int == gval(st_pop.0, start, current.pos));
            assert(search_run(*map, ents, start, goal, max_steps as int, st_top, fuel) == (if cur_g >= max_steps {
                search_run(*map, ents, start, goal, max_steps as int, st_pop, (fuel - 1) as nat)
            } else {
                search_run(
                    *map,
                    ents,
                    start,
                    goal,
                    max_steps as int,
                    relax_upto(*map, ents, start, goal, current.pos, cur_g as int, st_pop, 8),
                    (fuel - 1) as nat,
                )
            }));
        }
        if cur_g >= max_steps as i64 {
            proof {
                fuel = (fuel - 1) as nat;
                lemma_gsum_nonneg(g@, b);
                lemma_search_capped(*map, ents, g@, open@, start, goal, max_steps as int, current.pos);
                lemma_search_rebase(*map, ents, g@, open@, start, goal, max_steps as int, current.pos, start);
            }
            continue;
        }
        let mut d: usize = 0;
        while d < 8
            invariant
                map.wf(),
                start != goal,
                i32::MIN < start.x < i32::MAX,
                i32::MIN < start.y < i32::MAX,
                ents == entities.view_seq(),
                b == (if max_steps > 0 {
                    max_steps as int
                } else {
                    0
                }) + 14,
                grid_ok(*map, ents, g@, came@, start, goal, b),
                parents_below(g@, came@, start, max_steps as int),
                forall|i: int| 0 <= i < open@.len() ==> known(g@, start, #[trigger] open@[i].pos),
                known(g@, start, current.pos),
                current.pos != start ==> in_bounds_spec(current.pos.x as int, current.pos.y as int),
                cur_g == gval(g@, start, current.pos),
                cur_g == 0 ==> current.pos == start,
                0 <= cur_g < max_steps,
                d <= 8,
                open@.len() + 2 * gsum(g@, b) < m0,
                current.pos != goal,
                search_ok(*map, ents, g@, open@, start, goal, max_steps as int, current.pos, d as int),
                open_ok(open@, g@, start, goal),
                (g@, came@, open@) == relax_upto(*map, ents, start, goal, current.pos, cur_g as int, st_pop, d as int),
            decreases 8 - d,
        {
            proof {
                lemma_grid_facts(*map, ents, g@, came@, start, goal, b);
            }
            let ghost k = d as int;
            let ghost st_k: SearchState = (g@, came@, open@);
            let (ddx, ddy) = direction_at(d);
            d = d + 1;
            let nx = current.pos.x + ddx;
            let ny = current.pos.y + ddy;
            let ghost nb = Coord { x: nx, y: ny };
            assert(neighbour(current.pos, k) == nb);
            if nx == start.x && ny == start.y && cur_g > 0 {
                proof {
                    lemma_search_skip(*map, ents, g@, open@, start, goal, max_steps as int, current.pos, k);
                    lemma_relax_skip(*map, ents, start, goal, current.pos, cur_g as int, st_pop, k, st_k);
                }
                continue;
            }
            if !map.is_passable(nx, ny) {
                proof {
                    lemma_search_skip(*map, ents, g@, open@, start, goal, max_steps as int, current.pos, k);
                    lemma_relax_skip(*map, ents, start, goal, current.pos, cur_g as int, st_pop, k, st_k);
                }
                continue;
            }
            if !(nx == goal.x && ny == goal.y) && !is_free(entities, nx, ny) {
                proof {
                    lemma_search_skip(*map, ents, g@, open@, start, goal, max_steps as int, current.pos, k);
                    lemma_relax_skip(*map, ents, start, goal, current.pos, cur_g as int, st_pop, k, st_k);
                }
                continue;
            }
            let move_cost: i64 = if ddx != 0 && ddy != 0 {
                14
            } else {
                10
            };
            let tentative_g = cur_g + move_cost;
            let ni = map.index(nx, ny);
            let existing_g = g[ni];
            if tentative_g < existing_g {
                let np = Coord::new(nx, ny);
                let h = heuristic(np, goal);
                let node = AStarNode { pos: np, g: tentative_g, f: tentative_g + h };
                proof {
                    lemma_search_update(
                        *map,
                        ents,
                        g@,
                        open@,
                        start,
                        goal,
                        max_steps as int,
                        current.pos,
                        k,
                        tentative_g,
                        node,
                    );
                    lemma_parents_update(
                        *map,
                        ents,
                        g@,
                        came@,
                        start,
                        goal,
                        b,
                        max_steps as int,
                        np,
                        current.pos,
                        tentative_g,
                    );
                    lemma_grid_update(*map, ents, g@, came@, start, goal, b, current.pos, np, tentative_g);
                    lemma_gsum_update(g@, b, ni as int, tentative_g);
                    lemma_cell_index_bounds(nx as int, ny as int);
                    lemma_open_ok_update(open@, node, g@, start, goal, ni as int, tentative_g);
                    assert forall|i: int| 0 <= i < open@.len() implies known(g@.update(ni as int, tentative_g), start, #[trigger] open@[i].pos) by {
                        lemma_known_update(g@, start, open@[i].pos, ni as int, tentative_g);
                    }
                    lemma_known_update(g@, start, current.pos, ni as int, tentative_g);
                    if current.pos != start {
                        lemma_cell_index_bounds(current.pos.x as int, current.pos.y as int);
                        lemma_cell_index_bounds(nx as int, ny as int);
                        if cell_index(current.pos.x as int, current.pos.y as int) == ni as int {
                            lemma_cell_index_injective(current.pos.x as int, current.pos.y as int, nx as int, ny as int);
                        }
                    }
                }
                came.set(ni, current.pos);
                g.set(ni, tentative_g);
                open.push(node);
                proof {
                    assert(known(g@, start, np)) by {
                        lemma_cell_index_bounds(nx as int, ny as int);
                    }
                    assert forall|i: int| 0 <= i < open@.len() implies known(g@, start, #[trigger] open@[i].pos) by {}
                    lemma_relax_update(*map, ents, start, goal, current.pos, cur_g as int, st_pop, k, st_k, tentative_g, node);
                }
            } else {
                proof {
                    lemma_search_skip(*map, ents, g@, open@, start, goal, max_steps as int, current.pos, k);
                    lemma_relax_skip(*map, ents, start, goal, current.pos, cur_g as int, st_pop, k, st_k);
                }
            }
        }
        proof {
            lemma_grid_facts(*map, ents, g@, came@, start, goal, b);
            lemma_gsum_nonneg(g@, b);
            lemma_search_rebase(*map, ents, g@, open@, start, goal, max_steps as int, current.pos, start);
            fuel = (fuel - 1) as nat;
        }
    }
    proof {
        assert(open@ =~= Seq::<AStarNode>::empty());
        assert forall|p: Seq<Coord>| valid_path(*map, ents, start, goal, p) implies path_cost(p.drop_last())
            >= max_steps by {
            lemma_search_none(*map, ents, g@, start, goal, max_steps as int, p);
        }
    }
    None
}

/// Every reached grid cell was reached from a cell whose cost was below the bound `m`,
/// that is, from a cell the search expanded.
spec fn parents_below(g: Seq<i64>, came: Seq<Coord>, start: Coord, m: int) -> bool {
    forall|x: int, y: int|
        #![trigger g[cell_index(x, y)]]
        in_bounds_spec(x, y) && g[cell_index(x, y)] != i64::MAX ==> gval(
            g,
            start,
            came[cell_index(x, y)],
        ) < m
}

proof fn lemma_parents_update(
    map: GameMap,
    ents: Seq<Entity>,
    g: Seq<i64>,
    came: Seq<Coord>,
    start: Coord,
    goal: Coord,
    b: int,
    m: int,
    n: Coord,
    cur: Coord,
    t: i64,
)
    requires
        grid_ok(map, ents, g, came, start, goal, b),
        parents_below(g, came, start, m),
        in_bounds_spec(n.x as int, n.y as int),
        gval(g, start, cur) < m,
        known(g, start, cur),
        t < g[cell_index(n.x as int, n.y as int)],
    ensures
        parents_below(
            g.update(cell_index(n.x as int, n.y as int), t),
            came.update(cell_index(n.x as int, n.y as int), cur),
            start,
            m,
        ),
{
    reveal(grid_ok);
    let ni = cell_index(n.x as int, n.y as int);
    lemma_cell_index_bounds(n.x as int, n.y as int);
    let g2 = g.update(ni, t);
    let c2 = came.update(ni, cur);
    if cur != start {
        lemma_cell_index_bounds(cur.x as int, cur.y as int);
    }
    assert forall|x: int, y: int|
        #![trigger g2[cell_index(x, y)]]
        in_bounds_spec(x, y) && g2[cell_index(x, y)] != i64::MAX implies gval(
        g2,
        start,
        c2[cell_index(x, y)],
    ) < m by {
        lemma_cell_index_bounds(x, y);
        if cell_index(x, y) != ni {
            assert(g[cell_index(x, y)] != i64::MAX);
            assert(cell_ok(map, ents, g, came, start, goal, b, Coord { x: x as i32, y: y as i32 }));
            let p = came[cell_index(x, y)];
            assert(c2[cell_index(x, y)] == p);
            if p != start {
                lemma_cell_index_bounds(p.x as int, p.y as int);
            }
        }
    }
}

proof fn lemma_chain_head(
    map: GameMap,
    ents: Seq<Entity>,
    g: Seq<i64>,
    start: Coord,
    goal: Coord,
    b: int,
    p: Seq<Coord>,
    cur: Coord,
)
    requires
        chain_ok(map, ents, g, start, goal, b, p, cur),
    ensures
        p.len() >= 1,
        p[0] == cur,
{
    reveal(chain_ok);
}

/// Prepending the predecessor keeps the cost of a reconstructed path before its last
/// cell within the cost of the goal's predecessor.
proof fn lemma_budget_step(
    g: Seq<i64>,
    start: Coord,
    goal: Coord,
    gp: Coord,
    p: Seq<Coord>,
    prev: Coord,
    cur: Coord,
)
    requires
        p.len() >= 1,
        p[0] == cur,
        p.len() == 1 ==> cur == goal && prev == gp,
        p.len() >= 2 ==> p[p.len() - 2] == gp && path_cost(p.drop_last()) + gval(g, start, cur)
            <= gval(g, start, gp),
        gval(g, start, prev) + step_cost(prev, cur) <= gval(g, start, cur),
    ensures
        ({
            let q = seq![prev] + p;
            &&& q.len() >= 2
            &&& q[q.len() - 2] == gp
            &&& path_cost(q.drop_last()) + gval(g, start, prev) <= gval(g, start, gp)
        }),
{
    let q = seq![prev] + p;
    if p.len() == 1 {
        assert(q.drop_last() =~= seq![prev]);
        assert(q[q.len() - 2] == prev);
    } else {
        let d = q.drop_last();
        assert(d =~= seq![prev] + p.drop_last());
        assert(q[q.len() - 2] == p[p.len() - 2]);
        assert(d[0] == prev && d[1] == cur);
        assert(d.drop_first() =~= p.drop_last());
    }
}

/// The invariant of path reconstruction: `p` runs from the cell `cur` to the goal along
/// predecessor links, with strictly increasing costs, every cell after the first a reached
/// grid cell, and its cost plus the cost to reach `cur` at most the goal's cost.
#[verifier::opaque]
spec fn chain_ok(
    map: GameMap,
    ents: Seq<Entity>,
    g: Seq<i64>,
    start: Coord,
    goal: Coord,
    b: int,
    p: Seq<Coord>,
    cur: Coord,
) -> bool {
    &&& known(g, start, cur)
    &&& p.len() >= 1
    &&& p[0] == cur
    &&& p[p.len() - 1] == goal
    &&& forall|i: int| 0 <= i < p.len() - 1 ==> adjacent8(#[trigger] p[i], p[i + 1])
    &&& forall|i: int|
        0 <= i < p.len() - 1 ==> gval(g, start, #[trigger] p[i]) < gval(g, start, p[i + 1])
    &&& forall|i: int|
        1 <= i < p.len() ==> known(g, start, #[trigger] p[i]) && p[i] != start
            && map.passable_at(p[i].x as int, p[i].y as int)
    &&& forall|i: int|
        1 <= i < p.len() - 1 ==> !occupied(ents, #[trigger] p[i].x as int, p[i].y as int)
    &&& (cur != start ==> map.passable_at(cur.x as int, cur.y as int) && (cur == goal || !occupied(ents, cur.x as int, cur.y as int)))
    &&& path_cost(p) + gval(g, start, cur) <= gval(g, start, goal)
    &&& gval(g, start, goal) < b
}

proof fn lemma_chain_step(
    map: GameMap,
    ents: Seq<Entity>,
    g: Seq<i64>,
    came: Seq<Coord>,
    start: Coord,
    goal: Coord,
    b: int,
    p: Seq<Coord>,
    cur: Coord,
)
    requires
        start != goal,
        grid_ok(map, ents, g, came, start, goal, b),
        chain_ok(map, ents, g, start, goal, b, p, cur),
        cur != start,
    ensures
        in_bounds_spec(cur.x as int, cur.y as int),
        ({
            let prev = came[cell_index(cur.x as int, cur.y as int)];
            &&& chain_ok(map, ents, g, start, goal, b, seq![prev] + p, prev)
            &&& gval(g, start, prev) < gval(g, start, cur)
            &&& gval(g, start, prev) + step_cost(prev, cur) <= gval(g, start, cur)
            &&& gval(g, start, prev) >= 0
        }),
{
    reveal(grid_ok);
    reveal(chain_ok);
    lemma_cell_index_bounds(cur.x as int, cur.y as int);
    let ci = cell_index(cur.x as int, cur.y as int);
    assert(g[ci] != i64::MAX);
    assert(cell_ok(map, ents, g, came, start, goal, b, Coord { x: cur.x, y: cur.y }));
    let prev = came[ci];
    let q = seq![prev] + p;
    assert(q.drop_first() =~= p);
    assert(q[0] == prev);
    assert forall|i: int| 0 <= i < q.len() - 1 implies adjacent8(#[trigger] q[i], q[i + 1]) by {
        if i > 0 {
            assert(q[i] == p[i - 1]);
            assert(q[i + 1] == p[i]);
        }
    }
    assert forall|i: int| 0 <= i < q.len() - 1 implies gval(g, start, #[trigger] q[i]) < gval(g, start, q[i + 1]) by {
        if i > 0 {
            assert(q[i] == p[i - 1]);
            assert(q[i + 1] == p[i]);
        }
    }
    assert forall|i: int| 1 <= i < q.len() implies known(g, start, #[trigger] q[i]) && q[i] != start
        && map.passable_at(q[i].x as int, q[i].y as int) by {
        assert(q[i] == p[i - 1]);
    }
    assert forall|i: int| 1 <= i < q.len() - 1 implies !occupied(ents, #[trigger] q[i].x as int, q[i].y as int) by {
        assert(q[i] == p[i - 1]);
        if i == 1 {
            if cur == goal {
                assert(p.len() >= 2);
                lemma_increasing_ends(g, start, p);
            }
        }
    }
    if prev != start {
        lemma_cell_index_bounds(prev.x as int, prev.y as int);
        assert(g[cell_index(prev.x as int, prev.y as int)] != i64::MAX);
        assert(cell_ok(map, ents, g, came, start, goal, b, Coord { x: prev.x, y: prev.y }));
        assert(g[cell_index(prev.x as int, prev.y as int)] >= 0);
    }
}

proof fn lemma_grid_facts(
    map: GameMap,
    ents: Seq<Entity>,
    g: Seq<i64>,
    came: Seq<Coord>,
    start: Coord,
    goal: Coord,
    b: int,
)
    requires
        grid_ok(map, ents, g, came, start, goal, b),
    ensures
        g.len() == map_cells(),
        came.len() == map_cells(),
        forall|i: int| 0 <= i < g.len() ==> #[trigger] g[i] >= 0,
{
    reveal(grid_ok);
}

proof fn lemma_known_gval(
    map: GameMap,
    ents: Seq<Entity>,
    g: Seq<i64>,
    came: Seq<Coord>,
    start: Coord,
    goal: Coord,
    b: int,
    c: Coord,
)
    requires
        grid_ok(map, ents, g, came, start, goal, b),
        known(g, start, c),
    ensures
        c != start ==> in_bounds_spec(c.x as int, c.y as int) && 10 <= gval(g, start, c) < b,
        c == start ==> gval(g, start, c) == 0,
{
    reveal(grid_ok);
    if c != start {
        assert(g[cell_index(c.x as int, c.y as int)] != i64::MAX);
        assert(cell_ok(map, ents, g, came, start, goal, b, Coord { x: c.x, y: c.y }));
    }
}

proof fn lemma_known_update(g: Seq<i64>, start: Coord, c: Coord, i: int, v: i64)
    requires
        known(g, start, c),
        g.len() == map_cells(),
        0 <= i < g.len(),
        v != i64::MAX,
    ensures
        known(g.update(i, v), start, c),
        c != start && cell_index(c.x as int, c.y as int) != i ==> gval(g.update(i, v), start, c)
            == gval(g, start, c),
{
    if c != start {
        lemma_cell_index_bounds(c.x as int, c.y as int);
    }
}

proof fn lemma_grid_update(
    map: GameMap,
    ents: Seq<Entity>,
    g: Seq<i64>,
    came: Seq<Coord>,
    start: Coord,
    goal: Coord,
    b: int,
    cur: Coord,
    n: Coord,
    t: i64,
)
    requires
        grid_ok(map, ents, g, came, start, goal, b),
        known(g, start, cur),
        n != start,
        map.passable_at(n.x as int, n.y as int),
        n == goal || !occupied(ents, n.x as int, n.y as int),
        adjacent8(cur, n),
        gval(g, start, cur) + step_cost(cur, n) == t,
        10 <= t < b,
        t < g[cell_index(n.x as int, n.y as int)],
    ensures
        grid_ok(
            map,
            ents,
            g.update(cell_index(n.x as int, n.y as int), t),
            came.update(cell_index(n.x as int, n.y as int), cur),
            start,
            goal,
            b,
        ),
{
    reveal(grid_ok);
    let ni = cell_index(n.x as int, n.y as int);
    lemma_cell_index_bounds(n.x as int, n.y as int);
    let g2 = g.update(ni, t);
    let c2 = came.update(ni, cur);
    if cur != start {
        lemma_cell_index_bounds(cur.x as int, cur.y as int);
        if cell_index(cur.x as int, cur.y as int) == ni {
            lemma_cell_index_injective(cur.x as int, cur.y as int, n.x as int, n.y as int);
        }
    }
    assert forall|i: int| 0 <= i < g2.len() implies #[trigger] g2[i] >= 0 by {}
    assert forall|x: int, y: int|
        #![trigger g2[cell_index(x, y)]]
        in_bounds_spec(x, y) && g2[cell_index(x, y)] != i64::MAX implies cell_ok(
        map,
        ents,
        g2,
        c2,
        start,
        goal,
        b,
        Coord { x: x as i32, y: y as i32 },
    ) by {
        lemma_cell_index_bounds(x, y);
        let c = Coord { x: x as i32, y: y as i32 };
        if cell_index(x, y) == ni {
            lemma_cell_index_injective(x, y, n.x as int, n.y as int);
            assert(c == n);
        } else {
            assert(g[cell_index(x, y)] != i64::MAX);
            assert(cell_ok(map, ents, g, came, start, goal, b, c));
            let p = came[cell_index(x, y)];
            assert(c2[cell_index(x, y)] == p);
            if p != start {
                lemma_cell_index_bounds(p.x as int, p.y as int);
            }
        }
    }
}

proof fn lemma_chain_start(
    map: GameMap,
    ents: Seq<Entity>,
    g: Seq<i64>,
    came: Seq<Coord>,
    start: Coord,
    goal: Coord,
    b: int,
)
    requires
        grid_ok(map, ents, g, came, start, goal, b),
        known(g, start, goal),
        start != goal,
    ensures
        chain_ok(map, ents, g, start, goal, b, seq![goal], goal),
{
    reveal(grid_ok);
    reveal(chain_ok);
    assert(g[cell_index(goal.x as int, goal.y as int)] != i64::MAX);
    assert(cell_ok(map, ents, g, came, start, goal, b, Coord { x: goal.x, y: goal.y }));
    assert(path_cost(seq![goal]) == 0);
}

proof fn lemma_chain_final(
    map: GameMap,
    ents: Seq<Entity>,
    g: Seq<i64>,
    start: Coord,
    goal: Coord,
    b: int,
    p: Seq<Coord>,
)
    requires
        chain_ok(map, ents, g, start, goal, b, p, start),
        start != goal,
    ensures
        valid_path(map, ents, start, goal, p),
        path_cost(p) < b,
        path_cost(p) <= gval(g, start, goal),
{
    reveal(chain_ok);
    lemma_increasing_distinct(g, start, p);
    if p.len() < 2 {
        assert(p[0] == goal);
    }
}

proof fn lemma_increasing_ends(g: Seq<i64>, start: Coord, p: Seq<Coord>)
    requires
        p.len() >= 2,
        forall|i: int| 0 <= i < p.len() - 1 ==> gval(g, start, #[trigger] p[i]) < gval(g, start, p[i + 1]),
    ensures
        gval(g, start, p[0]) < gval(g, start, p[p.len() - 1]),
    decreases p.len(),
{
    if p.len() > 2 {
        lemma_increasing_ends(g, start, p.drop_first());
        assert(p.drop_first()[0] == p[1]);
    }
}

proof fn lemma_increasing_distinct(g: Seq<i64>, start: Coord, p: Seq<Coord>)
    requires
        forall|i: int| 0 <= i < p.len() - 1 ==> gval(g, start, #[trigger] p[i]) < gval(g, start, p[i + 1]),
    ensures
        p.no_duplicates(),
        forall|i: int, j: int| 0 <= i < j < p.len() ==> gval(g, start, p[i]) < gval(g, start, p[j]),
    decreases p.len(),
{
    if p.len() > 1 {
        let q = p.drop_first();
        lemma_increasing_distinct(g, start, q);
        assert forall|i: int, j: int| 0 <= i < j < p.len() implies gval(g, start, p[i]) < gval(g, start, p[j]) by {
            if i > 0 {
                assert(p[i] == q[i - 1] && p[j] == q[j - 1]);
            } else {
                assert(p[1] == q[0]);
                if j > 1 {
                    assert(p[j] == q[j - 1]);
                }
            }
        }
    }
}

} // verus!

verus! {

/// The step a path takes first: its second cell, or its only cell, or none for an
/// empty path.
pub fn first_step(path: &Vec<Coord>) -> (r: Option<Coord>)
    ensures
        r == (if path@.len() >= 2 {
            Some(path@[1])
        } else if path@.len() == 1 {
            Some(path@[0])
        } else {
            None::<Coord>
        }),
{
    if path.len() >= 2 {
        Some(path[1])
    } else if path.len() == 1 {
        Some(path[0])
    } else {
        None
    }
}

/// The first step of an A* path toward `goal` (search bounded by cost 100): `None` when
/// start and goal coincide or no path was found, otherwise the second cell of the path
/// `find_path` finds with budget 100. A step is given exactly when some walk spends less
/// than 100 before its last step, and it is the second cell of a cheapest such walk.
pub fn find_step_toward(map: &GameMap, start: Coord, goal: Coord, entities: &EntityManager) -> (r:
    Option<Coord>)
    requires
        map.wf(),
        start != goal ==> i32::MIN < start.x < i32::MAX && i32::MIN < start.y < i32::MAX,
    ensures
        start == goal ==> r is None,
        r matches Some(c) ==> exists|p: Seq<Coord>|
            valid_path(*map, entities.view_seq(), start, goal, p) && path_cost(p) < 114
                && path_cost(p.drop_last()) < 100 && p[1] == c && cheapest_within(
                *map,
                entities.view_seq(),
                start,
                goal,
                p,
                100,
            ),
        start != goal && r is None ==> forall|p: Seq<Coord>|
            valid_path(*map, entities.view_seq(), start, goal, p) ==> path_cost(p.drop_last())
                >= 100,
        r == step_toward(*map, entities.view_seq(), start, goal),
{
    match find_path(map, start, goal, entities, 100) {
        Some(path) => first_step(&path),
        None => None,
    }
}

} // verus!
