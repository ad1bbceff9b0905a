use vstd::prelude::*;

use crate::map::GameMap;
use crate::types::Coord;
use crate::visible::VisibleSet;

verus! {

/// Squared Euclidean distance between two cells.
pub open spec fn dist2(a: Coord, b: Coord) -> int {
    (a.x - b.x) * (a.x - b.x) + (a.y - b.y) * (a.y - b.y)
}

/// Every cell of `s` lies within Euclidean distance `radius` of `origin`.
pub open spec fn all_within(s: Seq<Coord>, origin: Coord, radius: int) -> bool {
    forall|i: int| 0 <= i < s.len() ==> dist2(#[trigger] s[i], origin) <= radius * radius
}

/// The field-of-view computation stays on the i32 grid: the square of side
/// 2 * radius + 1 around the origin fits, and radius * radius fits in an i32.
pub open spec fn fov_fits(origin: Coord, radius: int) -> bool {
    &&& radius <= 46340
    &&& i32::MIN <= origin.x - radius
    &&& origin.x + radius <= i32::MAX
    &&& i32::MIN <= origin.y - radius
    &&& origin.y + radius <= i32::MAX
}

/// A slope (numerator, positive denominator) whose parts are bounded by 2 * radius + 1.
pub open spec fn slope_ok(s: (i64, i64), radius: int) -> bool {
    &&& 1 <= s.1 <= 2 * radius + 1
    &&& -(2 * radius + 1) <= s.0 <= 2 * radius + 1
}

/// The rational a is strictly below the rational b.
pub open spec fn slope_less(a: (i64, i64), b: (i64, i64)) -> bool {
    a.0 * b.1 < b.0 * a.1
}

proof fn lemma_product_bound(a: int, b: int, m: int)
    requires
        0 <= m,
        -m <= a <= m,
        -m <= b <= m,
    ensures
        -(m * m) <= a * b <= m * m,
{
    assert(-(m * m) <= a * b <= m * m) by (nonlinear_arith)
        requires
            0 <= m,
            -m <= a <= m,
            -m <= b <= m,
    ;
}

fn less(a: (i64, i64), b: (i64, i64), radius: i32) -> (r: bool)
    requires
        0 <= radius <= 46340,
        slope_ok(a, radius as int),
        slope_ok(b, radius as int),
    ensures
        r == slope_less(a, b),
{
    proof {
        let m = 2 * radius + 1;
        lemma_product_bound(a.0 as int, b.1 as int, m as int);
        lemma_product_bound(b.0 as int, a.1 as int, m as int);
        assert(m * m <= 93681 * 93681) by (nonlinear_arith)
            requires
                0 <= m <= 93681,
        ;
    }
    a.0 * b.1 < b.0 * a.1
}

/// Map an offset (dx, dy) of the first octant onto octant `octant` around (cx, cy).
pub open spec fn octant_point(cx: int, cy: int, dx: int, dy: int, octant: u8) -> (int, int) {
    if octant == 0 {
        (cx + dx, cy + dy)
    } else if octant == 1 {
        (cx + dy, cy + dx)
    } else if octant == 2 {
        (cx + dy, cy - dx)
    } else if octant == 3 {
        (cx + dx, cy - dy)
    } else if octant == 4 {
        (cx - dx, cy - dy)
    } else if octant == 5 {
        (cx - dy, cy - dx)
    } else if octant == 6 {
        (cx - dy, cy + dx)
    } else if octant == 7 {
        (cx - dx, cy + dy)
    } else {
        (cx, cy)
    }
}

fn transform_octant(cx: i32, cy: i32, dx: i32, dy: i32, octant: u8) -> (r: (i32, i32))
    requires
        i32::MIN <= cx - dx <= i32::MAX,
        i32::MIN <= cx + dx <= i32::MAX,
        i32::MIN <= cx - dy <= i32::MAX,
        i32::MIN <= cx + dy <= i32::MAX,
        i32::MIN <= cy - dx <= i32::MAX,
        i32::MIN <= cy + dx <= i32::MAX,
        i32::MIN <= cy - dy <= i32::MAX,
        i32::MIN <= cy + dy <= i32::MAX,
    ensures
        (r.0 as int, r.1 as int) == octant_point(cx as int, cy as int, dx as int, dy as int, octant),
{
    match octant {
        0 => (cx + dx, cy + dy),
        1 => (cx + dy, cy + dx),
        2 => (cx + dy, cy - dx),
        3 => (cx + dx, cy - dy),
        4 => (cx - dx, cy - dy),
        5 => (cx - dy, cy - dx),
        6 => (cx - dy, cy + dx),
        7 => (cx - dx, cy + dy),
        _ => (cx, cy),
    }
}

proof fn lemma_octant_dist(cx: int, cy: int, dx: int, dy: int, octant: u8)
    requires
        octant < 8,
    ensures
        ({
            let p = octant_point(cx, cy, dx, dy, octant);
            (p.0 - cx) * (p.0 - cx) + (p.1 - cy) * (p.1 - cy) == dx * dx + dy * dy
        }),
{
    assert((-dx) * (-dx) == dx * dx) by (nonlinear_arith);
    assert((-dy) * (-dy) == dy * dy) by (nonlinear_arith);
}

/// The cell at offset (dx, dy) of the first octant, carried to octant `octant`.
pub open spec fn octant_cell(origin: Coord, dx: int, dy: int, octant: u8) -> Coord {
    let p = octant_point(origin.x as int, origin.y as int, dx, dy, octant);
    Coord { x: p.0 as i32, y: p.1 as i32 }
}

/// The cells next to `origin` that a radius reaches are among `vis`: the four sharing a
/// side once the radius is at least 1, the four diagonal ones once it is at least 2.
pub open spec fn neighbours_seen(vis: Seq<Coord>, origin: Coord, radius: int) -> bool {
    &&& radius >= 1 ==> vis.contains(Coord { x: origin.x, y: (origin.y + 1) as i32 })
        && vis.contains(Coord { x: origin.x, y: (origin.y - 1) as i32 })
        && vis.contains(Coord { x: (origin.x + 1) as i32, y: origin.y })
        && vis.contains(Coord { x: (origin.x - 1) as i32, y: origin.y })
    &&& radius >= 2 ==> vis.contains(Coord { x: (origin.x + 1) as i32, y: (origin.y + 1) as i32 })
        && vis.contains(Coord { x: (origin.x + 1) as i32, y: (origin.y - 1) as i32 })
        && vis.contains(Coord { x: (origin.x - 1) as i32, y: (origin.y + 1) as i32 })
        && vis.contains(Coord { x: (origin.x - 1) as i32, y: (origin.y - 1) as i32 })
}

/// The first row of an octant, scanned with the full slopes, lights both of its cells
/// that the radius reaches.
pub open spec fn first_row_lit(vis: Seq<Coord>, origin: Coord, radius: int, octant: u8) -> bool {
    &&& radius >= 1 ==> vis.contains(octant_cell(origin, 0, 1, octant))
    &&& radius >= 2 ==> vis.contains(octant_cell(origin, -1, 1, octant))
}

proof fn lemma_insert_keeps(before: Seq<Coord>, after: Seq<Coord>, c: Coord, x: Coord)
    requires
        after == before.push(c) || (after == before && before.contains(c)),
    ensures
        after.contains(c),
        before.contains(x) ==> after.contains(x),
{
    if after == before.push(c) {
        assert(after[after.len() - 1] == c);
        if before.contains(x) {
            let k = choose|k: int| 0 <= k < before.len() && before[k] == x;
            assert(after[k] == x);
        }
    }
}

proof fn lemma_subset_keeps(before: Seq<Coord>, after: Seq<Coord>, x: Coord)
    requires
        before.to_set().subset_of(after.to_set()),
    ensures
        before.contains(x) ==> after.contains(x),
{
    if before.contains(x) {
        assert(before.to_set().contains(x));
        assert(after.to_set().contains(x));
    }
}

/// No cell within `radius` rows and columns of `origin` blocks sight.
pub open spec fn clear_around(map: GameMap, origin: Coord, radius: int) -> bool {
    forall|x: int, y: int|
        origin.x - radius <= x <= origin.x + radius && origin.y - radius <= y <= origin.y + radius
            ==> !#[trigger] map.opaque_at(x, y)
}

/// Every cell of octant `octant` in rows 1 to `radius` that lies within the radius and
/// comes before column `dx` of row `j` in scanning order is in `vis`.
pub open spec fn lit_before(
    vis: Seq<Coord>,
    origin: Coord,
    radius: int,
    octant: u8,
    j: int,
    dx: int,
) -> bool {
    forall|d: int, jj: int|
        1 <= jj <= radius && -jj <= d <= 0 && d * d + jj * jj <= radius * radius && (jj < j || (jj
            == j && d < dx)) ==> #[trigger] vis.contains(octant_cell(origin, d, jj, octant))
}

/// Every cell of octant `octant` within the radius is in `vis`.
pub open spec fn octant_lit(vis: Seq<Coord>, origin: Coord, radius: int, octant: u8) -> bool {
    lit_before(vis, origin, radius, octant, radius + 1, 0)
}

/// Every cell within Euclidean distance `radius` of `origin` is in `vis`.
pub open spec fn disk_seen(vis: Seq<Coord>, origin: Coord, radius: int) -> bool {
    forall|c: Coord| dist2(c, origin) <= radius * radius ==> #[trigger] vis.contains(c)
}

proof fn lemma_lit_mono(
    before: Seq<Coord>,
    after: Seq<Coord>,
    origin: Coord,
    radius: int,
    octant: u8,
    j: int,
    dx: int,
)
    requires
        before.to_set().subset_of(after.to_set()),
        lit_before(before, origin, radius, octant, j, dx),
    ensures
        lit_before(after, origin, radius, octant, j, dx),
{
    assert forall|d: int, jj: int|
        1 <= jj <= radius && -jj <= d <= 0 && d * d + jj * jj <= radius * radius && (jj < j || (jj
            == j && d < dx)) implies #[trigger] after.contains(octant_cell(origin, d, jj, octant)) by {
        lemma_subset_keeps(before, after, octant_cell(origin, d, jj, octant));
    }
}

proof fn lemma_lit_step(vis: Seq<Coord>, origin: Coord, radius: int, octant: u8, j: int, dx: int)
    requires
        lit_before(vis, origin, radius, octant, j, dx),
        dx * dx + j * j <= radius * radius ==> vis.contains(octant_cell(origin, dx, j, octant)),
    ensures
        lit_before(vis, origin, radius, octant, j, dx + 1),
{
}

/// Which octant, and which offset in it, holds a cell other than the origin.
proof fn lemma_octant_of(origin: Coord, c: Coord, radius: int) -> (r: (u8, int, int))
    requires
        0 <= radius,
        dist2(c, origin) <= radius * radius,
        c != origin,
    ensures
        r.0 < 8,
        1 <= r.2 <= radius,
        -r.2 <= r.1 <= 0,
        r.1 * r.1 + r.2 * r.2 <= radius * radius,
        octant_cell(origin, r.1, r.2, r.0) == c,
{
    let a: int = c.x - origin.x;
    let b: int = c.y - origin.y;
    assert((-a) * (-a) == a * a) by (nonlinear_arith);
    assert((-b) * (-b) == b * b) by (nonlinear_arith);
    let r: (u8, int, int) = if b > 0 && a <= 0 && -a <= b {
        (0u8, a, b)
    } else if b > 0 && a >= 0 && a <= b {
        (7u8, -a, b)
    } else if a > 0 && b <= 0 && -b <= a {
        (1u8, b, a)
    } else if a > 0 && b >= 0 && b <= a {
        (2u8, -b, a)
    } else if b < 0 && a <= 0 && -a <= -b {
        (3u8, a, -b)
    } else if b < 0 && a >= 0 && a <= -b {
        (4u8, -a, -b)
    } else if a < 0 && b >= 0 && b <= -a {
        (5u8, -b, -a)
    } else {
        (6u8, b, -a)
    };
    assert(r.1 * r.1 + r.2 * r.2 == a * a + b * b);
    assert(r.2 * r.2 <= radius * radius);
    assert(r.2 <= radius) by (nonlinear_arith)
        requires
            r.2 * r.2 <= radius * radius,
            r.2 >= 0,
            radius >= 0,
    ;
    r
}

/// The offset (column, row) of cell `x` in the first-octant frame of octant `octant`:
/// the inverse of `octant_point` around `origin`.
pub open spec fn octant_inv(origin: Coord, x: Coord, octant: u8) -> (int, int) {
    let a = x.x - origin.x;
    let b = x.y - origin.y;
    if octant == 0 {
        (a, b)
    } else if octant == 1 {
        (b, a)
    } else if octant == 2 {
        (-b, a)
    } else if octant == 3 {
        (a, -b)
    } else if octant == 4 {
        (-a, -b)
    } else if octant == 5 {
        (-b, -a)
    } else if octant == 6 {
        (b, -a)
    } else {
        (-a, b)
    }
}

/// Cell `x` lies in octant `octant` around `origin`, in row 1 or further out.
pub open spec fn in_octant(origin: Coord, x: Coord, octant: u8) -> bool {
    let p = octant_inv(origin, x, octant);
    1 <= p.1 && -p.1 <= p.0 <= 0
}

/// The cell at distance `k` along the edge ray of octant `octant` (column 0) blocks sight.
pub open spec fn ray_opaque(map: GameMap, origin: Coord, octant: u8, k: int) -> bool {
    let p = octant_point(origin.x as int, origin.y as int, 0, k, octant);
    map.opaque_at(p.0, p.1)
}

/// Some cell nearer than row `jj` on the edge ray of octant `octant` blocks sight.
pub open spec fn wall_before(map: GameMap, origin: Coord, octant: u8, jj: int) -> bool {
    exists|k: int| 1 <= k < jj && #[trigger] ray_opaque(map, origin, octant, k)
}

/// Every cell in `after` but not in `before` lies in octant `octant`; one on the octant's
/// edge ray is allowed only when `ray_ok`, and then only if no wall stands nearer on
/// that ray.
pub open spec fn fresh_ok(
    before: Seq<Coord>,
    after: Seq<Coord>,
    map: GameMap,
    origin: Coord,
    octant: u8,
    ray_ok: bool,
) -> bool {
    forall|x: Coord|
        #[trigger] after.contains(x) && !before.contains(x) ==> in_octant(origin, x, octant) && (
        octant_inv(origin, x, octant).0 == 0 ==> ray_ok && !wall_before(
            map,
            origin,
            octant,
            octant_inv(origin, x, octant).1,
        ))
}

/// A scan that starts at row `row` under a wall found one row nearer: its end slope is
/// at least 1 / (2 * row - 3), so it never reaches the octant's edge ray.
pub open spec fn below_wall_scan(row: int, end: (i64, i64)) -> bool {
    row >= 2 && end.0 * (2 * row - 3) >= end.1
}

/// The slope `s` is below -1 / (2 * j - 1), the right edge of the ray cell of row j - 1.
pub open spec fn below_ray(s: (i64, i64), j: int) -> bool {
    s.0 * (2 * j - 1) + s.1 < 0
}

/// Cell `x` lies on the origin's row or column, strictly behind a cell nearer to the
/// origin on that line that blocks sight.
pub open spec fn behind_wall(map: GameMap, origin: Coord, x: Coord) -> bool {
    ||| x.y == origin.y && x.x > origin.x && exists|k: int|
        0 < k < x.x - origin.x && #[trigger] map.opaque_at(origin.x + k, origin.y as int)
    ||| x.y == origin.y && x.x < origin.x && exists|k: int|
        0 < k < origin.x - x.x && #[trigger] map.opaque_at(origin.x - k, origin.y as int)
    ||| x.x == origin.x && x.y > origin.y && exists|k: int|
        0 < k < x.y - origin.y && #[trigger] map.opaque_at(origin.x as int, origin.y + k)
    ||| x.x == origin.x && x.y < origin.y && exists|k: int|
        0 < k < origin.y - x.y && #[trigger] map.opaque_at(origin.x as int, origin.y - k)
}

proof fn lemma_octant_inv(origin: Coord, dx: int, j: int, octant: u8)
    requires
        octant < 8,
        i32::MIN <= origin.x - dx <= i32::MAX,
        i32::MIN <= origin.x + dx <= i32::MAX,
        i32::MIN <= origin.x - j <= i32::MAX,
        i32::MIN <= origin.x + j <= i32::MAX,
        i32::MIN <= origin.y - dx <= i32::MAX,
        i32::MIN <= origin.y + dx <= i32::MAX,
        i32::MIN <= origin.y - j <= i32::MAX,
        i32::MIN <= origin.y + j <= i32::MAX,
    ensures
        octant_inv(origin, octant_cell(origin, dx, j, octant), octant) == (dx, j),
{
}

proof fn lemma_fresh_insert(
    init: Seq<Coord>,
    before: Seq<Coord>,
    after: Seq<Coord>,
    c: Coord,
    map: GameMap,
    origin: Coord,
    octant: u8,
    ray_ok: bool,
)
    requires
        fresh_ok(init, before, map, origin, octant, ray_ok),
        after == before.push(c) || after == before,
        in_octant(origin, c, octant),
        octant_inv(origin, c, octant).0 == 0 ==> ray_ok && !wall_before(
            map,
            origin,
            octant,
            octant_inv(origin, c, octant).1,
        ),
    ensures
        fresh_ok(init, after, map, origin, octant, ray_ok),
{
    assert forall|x: Coord| #[trigger] after.contains(x) && !init.contains(x) implies in_octant(
        origin,
        x,
        octant,
    ) && (octant_inv(origin, x, octant).0 == 0 ==> ray_ok && !wall_before(
        map,
        origin,
        octant,
        octant_inv(origin, x, octant).1,
    )) by {
        if x != c {
            let k = choose|k: int| 0 <= k < after.len() && after[k] == x;
            if after == before.push(c) {
                assert(k < before.len());
            }
            assert(before[k] == x);
            assert(before.contains(x));
        }
    }
}

proof fn lemma_fresh_compose(
    init: Seq<Coord>,
    mid: Seq<Coord>,
    fin: Seq<Coord>,
    map: GameMap,
    origin: Coord,
    octant: u8,
    ray_ok: bool,
)
    requires
        fresh_ok(init, mid, map, origin, octant, ray_ok),
        fresh_ok(mid, fin, map, origin, octant, false),
    ensures
        fresh_ok(init, fin, map, origin, octant, ray_ok),
{
}

proof fn lemma_below_ray_next(s: (i64, i64), j: int)
    requires
        s.1 >= 1,
        j >= 1,
        below_ray(s, j),
    ensures
        below_ray(s, j + 1),
{
    assert(s.0 <= 0) by (nonlinear_arith)
        requires
            s.1 >= 1,
            j >= 1,
            s.0 * (2 * j - 1) + s.1 < 0,
    ;
    assert(s.0 * (2 * j + 1) <= s.0 * (2 * j - 1)) by (nonlinear_arith)
        requires
            s.0 <= 0,
    ;
}

proof fn lemma_below_ray_lower(a: (i64, i64), b: (i64, i64), j: int)
    requires
        a.1 >= 1,
        b.1 >= 1,
        j >= 1,
        !slope_less(b, a),
        below_ray(b, j),
    ensures
        below_ray(a, j),
{
    let m = 2 * j - 1;
    assert(a.0 * b.1 * m <= b.0 * a.1 * m) by (nonlinear_arith)
        requires
            a.0 * b.1 <= b.0 * a.1,
            m >= 1,
    ;
    assert(b.0 * m * a.1 < -b.1 * a.1) by (nonlinear_arith)
        requires
            b.0 * m + b.1 < 0,
            a.1 >= 1,
    ;
    assert(a.0 * m + a.1 < 0) by (nonlinear_arith)
        requires
            a.0 * b.1 * m <= b.0 * a.1 * m,
            b.0 * m * a.1 < -b.1 * a.1,
            b.1 >= 1,
    ;
}

proof fn lemma_scan_misses_ray(end: (i64, i64), row: int, j: int)
    requires
        below_wall_scan(row, end),
        end.1 >= 1,
        j >= row,
    ensures
        end.1 < end.0 * (2 * j - 1),
{
    assert(end.0 >= 1) by (nonlinear_arith)
        requires
            end.0 * (2 * row - 3) >= end.1,
            end.1 >= 1,
            row >= 2,
    ;
    assert(end.0 * (2 * j - 1) >= end.0 * (2 * row - 1)) by (nonlinear_arith)
        requires
            end.0 >= 1,
            j >= row,
    ;
    assert(end.0 * (2 * row - 1) == end.0 * (2 * row - 3) + 2 * end.0) by (nonlinear_arith);
}

proof fn lemma_wall_before_next(map: GameMap, origin: Coord, octant: u8, j: int)
    requires
        wall_before(map, origin, octant, j + 1),
    ensures
        wall_before(map, origin, octant, j) || ray_opaque(map, origin, octant, j),
{
    let k = choose|k: int| 1 <= k < j + 1 && #[trigger] ray_opaque(map, origin, octant, k);
    if k < j {
        assert(wall_before(map, origin, octant, j));
    }
}

proof fn lemma_fresh_not_behind(map: GameMap, origin: Coord, x: Coord, octant: u8)
    requires
        octant < 8,
        in_octant(origin, x, octant),
        octant_inv(origin, x, octant).0 == 0 ==> !wall_before(
            map,
            origin,
            octant,
            octant_inv(origin, x, octant).1,
        ),
    ensures
        !behind_wall(map, origin, x),
{
    if x.y == origin.y && x.x > origin.x {
        if exists|k: int| 0 < k < x.x - origin.x && #[trigger] map.opaque_at(origin.x + k, origin.y as int) {
            let k = choose|k: int| 0 < k < x.x - origin.x && #[trigger] map.opaque_at(origin.x + k, origin.y as int);
            assert(ray_opaque(map, origin, octant, k));
        }
    }
    if x.y == origin.y && x.x < origin.x {
        if exists|k: int| 0 < k < origin.x - x.x && #[trigger] map.opaque_at(origin.x - k, origin.y as int) {
            let k = choose|k: int| 0 < k < origin.x - x.x && #[trigger] map.opaque_at(origin.x - k, origin.y as int);
            assert(ray_opaque(map, origin, octant, k));
        }
    }
    if x.x == origin.x && x.y > origin.y {
        if exists|k: int| 0 < k < x.y - origin.y && #[trigger] map.opaque_at(origin.x as int, origin.y + k) {
            let k = choose|k: int| 0 < k < x.y - origin.y && #[trigger] map.opaque_at(origin.x as int, origin.y + k);
            assert(ray_opaque(map, origin, octant, k));
        }
    }
    if x.x == origin.x && x.y < origin.y {
        if exists|k: int| 0 < k < origin.y - x.y && #[trigger] map.opaque_at(origin.x as int, origin.y - k) {
            let k = choose|k: int| 0 < k < origin.y - x.y && #[trigger] map.opaque_at(origin.x as int, origin.y - k);
            assert(ray_opaque(map, origin, octant, k));
        }
    }
}

/// The slope `a` is below the slope `b` (fractions with positive denominators).
pub open spec fn slt(a: (int, int), b: (int, int)) -> bool {
    a.0 * b.1 < b.0 * a.1
}

/// A slope held in machine integers, as a pair of integers.
pub open spec fn sl(s: (i64, i64)) -> (int, int) {
    (s.0 as int, s.1 as int)
}

/// `s` with each cell of `t` appended in turn unless already present.
pub open spec fn add_cells(s: Seq<Coord>, t: Seq<Coord>) -> Seq<Coord>
    decreases t.len(),
{
    if t.len() == 0 {
        s
    } else {
        add_cells(
            if s.contains(t[0]) {
                s
            } else {
                s.push(t[0])
            },
            t.drop_first(),
        )
    }
}

/// The cells the shadowcast of octant `oct` around `o` within `r` lights, in order, when
/// started at row `row` between the slopes `start` and `end`.
pub open spec fn scan(
    map: GameMap,
    o: Coord,
    r: int,
    oct: u8,
    row: int,
    start: (int, int),
    end: (int, int),
) -> Seq<Coord>
    decreases r + 1 - row, 2int, 0int,
{
    if row < 1 || slt(start, end) {
        Seq::empty()
    } else {
        scan_rows(map, o, r, oct, row, start, start, end)
    }
}

/// The cells lit from row `j` outward, the scan holding slopes `start` and `next`.
pub open spec fn scan_rows(
    map: GameMap,
    o: Coord,
    r: int,
    oct: u8,
    j: int,
    start: (int, int),
    next: (int, int),
    end: (int, int),
) -> Seq<Coord>
    decreases r + 1 - j, 1int, 0int,
{
    if j < 1 || j > r {
        Seq::empty()
    } else {
        let c = scan_cells(map, o, r, oct, j, -j, false, start, next, end);
        if c.1 {
            c.0
        } else {
            c.0 + scan_rows(map, o, r, oct, j + 1, c.2, c.3, end)
        }
    }
}

/// Row `j` of the scan from column `dx` on: the cells lit (with what the scans started
/// under walls light), and whether the row ends behind a wall, with the slopes `start`
/// and `next` then.
pub open spec fn scan_cells(
    map: GameMap,
    o: Coord,
    r: int,
    oct: u8,
    j: int,
    dx: int,
    blocked: bool,
    start: (int, int),
    next: (int, int),
    end: (int, int),
) -> (Seq<Coord>, bool, (int, int), (int, int))
    decreases r + 1 - j, 0int, 1 - dx,
{
    if dx > 0 || j < 1 || j > r {
        (Seq::empty(), blocked, start, next)
    } else {
        let left = (1 - 2 * dx, 2 * j - 1);
        let right = (-1 - 2 * dx, 2 * j + 1);
        if slt(start, right) {
            scan_cells(map, o, r, oct, j, dx + 1, blocked, start, next, end)
        } else if slt(left, end) {
            (Seq::empty(), blocked, start, next)
        } else {
            let here = if dx * dx + j * j <= r * r {
                seq![octant_cell(o, dx, j, oct)]
            } else {
                Seq::empty()
            };
            let p = octant_point(o.x as int, o.y as int, dx, j, oct);
            let op = map.opaque_at(p.0, p.1);
            if blocked {
                if op {
                    let t = scan_cells(map, o, r, oct, j, dx + 1, true, start, right, end);
                    (here + t.0, t.1, t.2, t.3)
                } else {
                    let t = scan_cells(map, o, r, oct, j, dx + 1, false, next, next, end);
                    (here + t.0, t.1, t.2, t.3)
                }
            } else if op && j < r {
                let sub = scan(map, o, r, oct, j + 1, start, left);
                let t = scan_cells(map, o, r, oct, j, dx + 1, true, start, right, end);
                (here + sub + t.0, t.1, t.2, t.3)
            } else {
                let t = scan_cells(map, o, r, oct, j, dx + 1, false, start, next, end);
                (here + t.0, t.1, t.2, t.3)
            }
        }
    }
}

/// The field of view after the first `n` octants: the origin, then what each octant's
/// scan lights, in order, each cell once.
pub open spec fn fov_upto(map: GameMap, o: Coord, r: int, n: nat) -> Seq<Coord>
    decreases n,
{
    if n == 0 {
        seq![o]
    } else {
        add_cells(fov_upto(map, o, r, (n - 1) as nat), scan(map, o, r, (n - 1) as u8, 1, (1, 1), (0, 1)))
    }
}

/// The field of view from `o` within `r` on `map`, in the order the cells are found.
pub open spec fn fov_seq(map: GameMap, o: Coord, r: int) -> Seq<Coord> {
    if r >= 0 {
        fov_upto(map, o, r, 8)
    } else {
        seq![o]
    }
}

proof fn lemma_add_cells_concat(s: Seq<Coord>, a: Seq<Coord>, b: Seq<Coord>)
    ensures
        add_cells(s, a + b) == add_cells(add_cells(s, a), b),
    decreases a.len(),
{
    if a.len() == 0 {
        assert(a + b =~= b);
    } else {
        let s2 = if s.contains(a[0]) {
            s
        } else {
            s.push(a[0])
        };
        assert((a + b).drop_first() =~= a.drop_first() + b);
        assert((a + b)[0] == a[0]);
        lemma_add_cells_concat(s2, a.drop_first(), b);
    }
}

proof fn lemma_add2(s: Seq<Coord>, a: Seq<Coord>, b: Seq<Coord>)
    ensures
        add_cells(s, a + b) == add_cells(add_cells(s, a), b),
{
    lemma_add_cells_concat(s, a, b);
}

proof fn lemma_add3(s: Seq<Coord>, a: Seq<Coord>, b: Seq<Coord>, c: Seq<Coord>)
    ensures
        add_cells(s, a + b + c) == add_cells(add_cells(add_cells(s, a), b), c),
{
    lemma_add_cells_concat(s, a + b, c);
    lemma_add_cells_concat(s, a, b);
}

proof fn lemma_add_cells_one(s: Seq<Coord>, c: Coord)
    ensures
        add_cells(s, seq![c]) == (if s.contains(c) {
            s
        } else {
            s.push(c)
        }),
{
    let s2 = if s.contains(c) {
        s
    } else {
        s.push(c)
    };
    assert(seq![c].drop_first() =~= Seq::<Coord>::empty());
    assert(add_cells(s2, Seq::<Coord>::empty()) == s2);
}

/// Light up the cells of one octant from row `row` outward, between two slopes, marking
/// each lit cell within the radius visible; a wall casts a shadow past it.
#[verifier::spinoff_prover]
#[verifier::rlimit(100)]
fn cast_light(
    map: &GameMap,
    cx: i32,
    cy: i32,
    radius: i32,
    row: i32,
    start_slope_in: (i64, i64),
    end_slope: (i64, i64),
    octant: u8,
    visible: &mut VisibleSet,
)
    requires
        map.wf(),
        old(visible).wf(),
        all_within(old(visible).cells_view(), Coord { x: cx, y: cy }, radius as int),
        fov_fits(Coord { x: cx, y: cy }, radius as int),
        0 <= radius,
        1 <= row,
        octant < 8,
        slope_ok(start_slope_in, radius as int),
        slope_ok(end_slope, radius as int),
        (row == 1 && start_slope_in == (1i64, 1i64) && end_slope == (0i64, 1i64)) || below_wall_scan(
            row as int,
            end_slope,
        ),
    ensures
        final(visible).wf(),
        fresh_ok(
            old(visible).cells_view(),
            final(visible).cells_view(),
            *map,
            Coord { x: cx, y: cy },
            octant,
            row == 1 && start_slope_in == (1i64, 1i64) && end_slope == (0i64, 1i64),
        ),
        final(visible).cells_view() == add_cells(
            old(visible).cells_view(),
            scan(
                *map,
                Coord { x: cx, y: cy },
                radius as int,
                octant,
                row as int,
                sl(start_slope_in),
                sl(end_slope),
            ),
        ),
        all_within(final(visible).cells_view(), Coord { x: cx, y: cy }, radius as int),
        old(visible).cells_view().to_set().subset_of(final(visible).cells_view().to_set()),
        row == 1 && start_slope_in == (1i64, 1i64) && end_slope == (0i64, 1i64) ==> first_row_lit(
            final(visible).cells_view(),
            Coord { x: cx, y: cy },
            radius as int,
            octant,
        ),
        row == 1 && start_slope_in == (1i64, 1i64) && end_slope == (0i64, 1i64) && clear_around(
            *map,
            Coord { x: cx, y: cy },
            radius as int,
        ) ==> octant_lit(final(visible).cells_view(), Coord { x: cx, y: cy }, radius as int, octant),
    decreases radius + 1 - row,
{
    let ghost origin = Coord { x: cx, y: cy };
    let ghost clear = clear_around(*map, origin, radius as int);
    let ghost initial = visible.cells_view().to_set();
    let ghost init_seq = visible.cells_view();
    let ghost target = add_cells(
        init_seq,
        scan(*map, origin, radius as int, octant, row as int, sl(start_slope_in), sl(end_slope)),
    );
    let ghost full = row == 1 && start_slope_in == (1i64, 1i64) && end_slope == (0i64, 1i64);
    let ghost mut row_done = false;
    let mut start_slope = start_slope_in;
    if less(start_slope, end_slope, radius) {
        return;
    }
    let mut next_start_slope = start_slope;
    let mut j: i32 = row;
    while j <= radius
        invariant_except_break
            add_cells(
                visible.cells_view(),
                scan_rows(
                    *map,
                    origin,
                    radius as int,
                    octant,
                    j as int,
                    sl(start_slope),
                    sl(next_start_slope),
                    sl(end_slope),
                ),
            ) == target,
        invariant
            full == (row == 1 && start_slope_in == (1i64, 1i64) && end_slope == (0i64, 1i64)),
            full && !row_done ==> j == 1 && start_slope == (1i64, 1i64),
            full && j > 1 ==> row_done,
            full && row_done ==> first_row_lit(visible.cells_view(), origin, radius as int, octant),
            clear == clear_around(*map, origin, radius as int),
            full && clear ==> start_slope == (1i64, 1i64) && lit_before(
                visible.cells_view(),
                origin,
                radius as int,
                octant,
                j as int,
                -j,
            ),
            fresh_ok(init_seq, visible.cells_view(), *map, origin, octant, full),
            target == add_cells(
                init_seq,
                scan(*map, origin, radius as int, octant, row as int, sl(start_slope_in), sl(end_slope)),
            ),
            full || below_wall_scan(row as int, end_slope),
            !slope_less(start_slope, next_start_slope),
            full && j <= radius && wall_before(*map, origin, octant, j as int) ==> below_ray(
                start_slope,
                j as int,
            ),
            map.wf(),
            visible.wf(),
            all_within(visible.cells_view(), origin, radius as int),
            initial.subset_of(visible.cells_view().to_set()),
            origin == (Coord { x: cx, y: cy }),
            fov_fits(origin, radius as int),
            0 <= radius,
            1 <= row <= j,
            octant < 8,
            slope_ok(start_slope, radius as int),
            slope_ok(next_start_slope, radius as int),
            slope_ok(end_slope, radius as int),
        ensures
            full && !row_done ==> radius < 1,
            full && row_done ==> first_row_lit(visible.cells_view(), origin, radius as int, octant),
            full && clear ==> octant_lit(visible.cells_view(), origin, radius as int, octant),
            fresh_ok(init_seq, visible.cells_view(), *map, origin, octant, full),
            visible.cells_view() == target,
            visible.wf(),
            all_within(visible.cells_view(), origin, radius as int),
            initial.subset_of(visible.cells_view().to_set()),
        decreases radius + 1 - j,
    {
        let mut blocked = false;
        let dy: i32 = -j;
        let mut dx: i32 = dy;
        let ghost vis0 = visible.cells_view();
        let ghost c0 = scan_cells(
            *map,
            origin,
            radius as int,
            octant,
            j as int,
            -j,
            false,
            sl(start_slope),
            sl(next_start_slope),
            sl(end_slope),
        );
        while dx <= 0
            invariant
                ({
                    let d = scan_cells(
                        *map,
                        origin,
                        radius as int,
                        octant,
                        j as int,
                        dx as int,
                        blocked,
                        sl(start_slope),
                        sl(next_start_slope),
                        sl(end_slope),
                    );
                    &&& d.1 == c0.1
                    &&& d.2 == c0.2
                    &&& d.3 == c0.3
                    &&& add_cells(visible.cells_view(), d.0) == add_cells(vis0, c0.0)
                }),
                full == (row == 1 && start_slope_in == (1i64, 1i64) && end_slope == (0i64, 1i64)),
                full && !row_done ==> j == 1,
                full && !row_done && dx <= 0 ==> start_slope == (1i64, 1i64),
                full && row_done ==> first_row_lit(visible.cells_view(), origin, radius as int, octant),
                clear == clear_around(*map, origin, radius as int),
                full && clear ==> start_slope == (1i64, 1i64) && !blocked && lit_before(
                    visible.cells_view(),
                    origin,
                    radius as int,
                    octant,
                    j as int,
                    dx as int,
                ),
                fresh_ok(init_seq, visible.cells_view(), *map, origin, octant, full),
                full || below_wall_scan(row as int, end_slope),
                !slope_less(start_slope, next_start_slope),
                full && wall_before(*map, origin, octant, j as int) ==> below_ray(
                    start_slope,
                    j as int,
                ),
                full && dx > 0 && ray_opaque(*map, origin, octant, j as int) && j < radius
                    ==> blocked || below_ray(start_slope, j + 1),
                full && !row_done && dx >= 0 && radius >= 2 ==> visible.cells_view().contains(
                    octant_cell(origin, -1, 1, octant),
                ),
                full && !row_done && dx >= 1 && radius >= 1 ==> visible.cells_view().contains(
                    octant_cell(origin, 0, 1, octant),
                ),
                map.wf(),
                visible.wf(),
                all_within(visible.cells_view(), origin, radius as int),
                initial.subset_of(visible.cells_view().to_set()),
                origin == (Coord { x: cx, y: cy }),
                fov_fits(origin, radius as int),
                0 <= radius,
                1 <= row <= j <= radius,
                dy == -j,
                dy <= dx <= 1,
                dx == dy ==> !blocked,
                octant < 8,
                slope_ok(start_slope, radius as int),
                slope_ok(next_start_slope, radius as int),
                slope_ok(end_slope, radius as int),
            ensures
                blocked == c0.1,
                sl(start_slope) == c0.2,
                sl(next_start_slope) == c0.3,
                visible.cells_view() == add_cells(vis0, c0.0),
                full && !row_done ==> dx >= 1,
                full && !row_done && radius >= 2 ==> visible.cells_view().contains(
                    octant_cell(origin, -1, 1, octant),
                ),
                full && !row_done && radius >= 1 ==> visible.cells_view().contains(
                    octant_cell(origin, 0, 1, octant),
                ),
                full && row_done ==> first_row_lit(visible.cells_view(), origin, radius as int, octant),
                full && clear ==> start_slope == (1i64, 1i64) && !blocked && lit_before(
                    visible.cells_view(),
                    origin,
                    radius as int,
                    octant,
                    j as int,
                    1,
                ),
                fresh_ok(init_seq, visible.cells_view(), *map, origin, octant, full),
                !slope_less(start_slope, next_start_slope),
                full && wall_before(*map, origin, octant, j as int) ==> below_ray(
                    start_slope,
                    j as int,
                ),
                full ==> dx > 0,
                full && ray_opaque(*map, origin, octant, j as int) && j < radius ==> blocked
                    || below_ray(start_slope, j + 1),
                clear == clear_around(*map, origin, radius as int),
                visible.wf(),
                all_within(visible.cells_view(), origin, radius as int),
                initial.subset_of(visible.cells_view().to_set()),
                map.wf(),
                fov_fits(origin, radius as int),
                slope_ok(start_slope, radius as int),
                slope_ok(next_start_slope, radius as int),
                1 <= row <= j <= radius,
            decreases 1 - dx,
        {
            let ghost dd = scan_cells(
                *map,
                origin,
                radius as int,
                octant,
                j as int,
                dx as int,
                blocked,
                sl(start_slope),
                sl(next_start_slope),
                sl(end_slope),
            );
            let ghost vis_b = visible.cells_view();
            let ghost dx0 = dx as int;
            let ghost b0 = blocked;
            let ghost s0 = sl(start_slope);
            let ghost n0 = sl(next_start_slope);
            let left_slope: (i64, i64) = (1 - 2 * (dx as i64), 2 * (j as i64) - 1);
            let right_slope: (i64, i64) = (-1 - 2 * (dx as i64), 2 * (j as i64) + 1);
            assert(sl(left_slope) == (1 - 2 * dx0, 2 * j - 1));
            assert(sl(right_slope) == (-1 - 2 * dx0, 2 * j + 1));
            proof {
                if dx == 0 {
                    assert(right_slope.0 == -1 && right_slope.1 == 2 * j + 1);
                    assert(left_slope.0 == 1 && left_slope.1 == 2 * j - 1);
                }
                if full && clear {
                    assert(!slope_less(start_slope, right_slope)) by (nonlinear_arith)
                        requires
                            start_slope.0 == 1,
                            start_slope.1 == 1,
                            right_slope.0 == -1 - 2 * dx,
                            right_slope.1 == 2 * j + 1,
                            -j <= dx,
                    ;
                }
            }
            if less(start_slope, right_slope, radius) {
                proof {
                    assert(dd == scan_cells(
                        *map,
                        origin,
                        radius as int,
                        octant,
                        j as int,
                        dx0 + 1,
                        b0,
                        s0,
                        n0,
                        sl(end_slope),
                    ));
                }
                dx = dx + 1;
                continue;
            }
            if less(left_slope, end_slope, radius) {
                proof {
                    assert(dd == (Seq::<Coord>::empty(), b0, s0, n0));
                    assert(add_cells(visible.cells_view(), Seq::<Coord>::empty()) == visible.cells_view());
                }
                break;
            }
            let (sx, sy) = transform_octant(cx, cy, dx, -dy, octant);
            let ddx = dx as i64;
            let ddy = dy as i64;
            let rr = radius as i64;
            proof {
                lemma_product_bound(dx as int, dx as int, radius as int);
                lemma_product_bound(dy as int, dy as int, radius as int);
                lemma_product_bound(radius as int, radius as int, radius as int);
                assert(radius * radius <= 46340 * 46340) by (nonlinear_arith)
                    requires
                        0 <= radius <= 46340,
                ;
                assert(radius >= 2 ==> radius * radius >= 4) by (nonlinear_arith);
                assert(radius >= 1 ==> radius * radius >= 1) by (nonlinear_arith);
                if dx == 0 && dy == -1 {
                    assert(ddx * ddx + ddy * ddy == 1) by (nonlinear_arith)
                        requires
                            ddx == 0,
                            ddy == -1,
                    ;
                }
                if dx == -1 && dy == -1 {
                    assert(ddx * ddx + ddy * ddy == 2) by (nonlinear_arith)
                        requires
                            ddx == -1,
                            ddy == -1,
                    ;
                }
            }
            if ddx * ddx + ddy * ddy <= rr * rr {
                let c = Coord::new(sx, sy);
                proof {
                    lemma_octant_dist(cx as int, cy as int, dx as int, -dy as int, octant);
                    assert((-dy) * (-dy) == dy * dy) by (nonlinear_arith);
                    assert(dist2(c, origin) <= radius * radius);
                }
                let ghost before = visible.cells_view();
                visible.insert(c);
                proof {
                    lemma_insert_keeps(before, visible.cells_view(), c, octant_cell(origin, -1, 1, octant));
                    lemma_insert_keeps(before, visible.cells_view(), c, octant_cell(origin, 0, 1, octant));
                    if full && !row_done {
                        assert(c == octant_cell(origin, dx as int, 1, octant));
                    }
                    assert forall|i: int| 0 <= i < visible.cells_view().len() implies dist2(
                        #[trigger] visible.cells_view()[i],
                        origin,
                    ) <= radius * radius by {
                        if i < before.len() {
                            assert(visible.cells_view()[i] == before[i]);
                        }
                    }
                    assert(before.to_set().subset_of(visible.cells_view().to_set())) by {
                        assert forall|x: Coord| before.to_set().contains(x) implies visible.cells_view().to_set().contains(
                            x,
                        ) by {
                            let k = choose|k: int| 0 <= k < before.len() && before[k] == x;
                            assert(visible.cells_view()[k] == x);
                        }
                    }
                    assert(c == octant_cell(origin, dx as int, j as int, octant));
                    lemma_add_cells_one(before, c);
                    lemma_octant_inv(origin, dx as int, j as int, octant);
                    if dx == 0 {
                        if !full {
                            lemma_scan_misses_ray(end_slope, row as int, j as int);
                        } else if wall_before(*map, origin, octant, j as int) {
                            lemma_below_ray_next(start_slope, j as int);
                        }
                    }
                    lemma_fresh_insert(
                        init_seq,
                        before,
                        visible.cells_view(),
                        c,
                        *map,
                        origin,
                        octant,
                        full,
                    );
                    if full && clear {
                        lemma_lit_mono(
                            before,
                            visible.cells_view(),
                            origin,
                            radius as int,
                            octant,
                            j as int,
                            dx as int,
                        );
                    }
                }
            }
            proof {
                if full && clear {
                    assert(ddy * ddy == j * j) by (nonlinear_arith)
                        requires
                            ddy == -j,
                    ;
                    assert(!map.opaque_at(sx as int, sy as int));
                    lemma_lit_step(visible.cells_view(), origin, radius as int, octant, j as int, dx as int);
                }
            }
            let ghost here: Seq<Coord> = if dx0 * dx0 + j * j <= radius * radius {
                seq![octant_cell(origin, dx0, j as int, octant)]
            } else {
                Seq::<Coord>::empty()
            };
            let ghost op = map.opaque_at(sx as int, sy as int);
            proof {
                assert(ddy * ddy == j * j) by (nonlinear_arith)
                    requires
                        ddy == -j,
                ;
                assert(ddx * ddx == dx0 * dx0);
                if !(dx0 * dx0 + j * j <= radius * radius) {
                    assert(add_cells(vis_b, here) == vis_b);
                }
                assert(visible.cells_view() == add_cells(vis_b, here));
                assert((sx as int, sy as int) == octant_point(cx as int, cy as int, dx0, j as int, octant));
            }
            if blocked {
                if map.blocks_vision(sx, sy) {
                    next_start_slope = right_slope;
                    proof {
                        let t = scan_cells(
                            *map,
                            origin,
                            radius as int,
                            octant,
                            j as int,
                            dx0 + 1,
                            true,
                            s0,
                            sl(right_slope),
                            sl(end_slope),
                        );
                        assert(dd == (here + t.0, t.1, t.2, t.3));
                        lemma_add2(vis_b, here, t.0);
                    }
                    dx = dx + 1;
                    continue;
                }
                blocked = false;
                proof {
                    if full && wall_before(*map, origin, octant, j as int) {
                        lemma_below_ray_lower(next_start_slope, start_slope, j as int);
                    }
                }
                start_slope = next_start_slope;
                proof {
                    let t = scan_cells(
                            *map,
                            origin,
                            radius as int,
                            octant,
                            j as int,
                            dx0 + 1,
                            false,
                            n0,
                            n0,
                            sl(end_slope),
                        );
                    assert(dd == (here + t.0, t.1, t.2, t.3));
                    lemma_add2(vis_b, here, t.0);
                }
            } else if map.blocks_vision(sx, sy) && j < radius {
                blocked = true;
                let ghost before = visible.cells_view();
                assert(left_slope.0 * (2 * (j + 1) - 3) >= left_slope.1) by (nonlinear_arith)
                    requires
                        left_slope.0 == 1 - 2 * dx,
                        left_slope.1 == 2 * j - 1,
                        dx <= 0,
                        j >= 1,
                ;
                cast_light(map, cx, cy, radius, j + 1, start_slope, left_slope, octant, visible);
                proof {
                    lemma_fresh_compose(
                        init_seq,
                        before,
                        visible.cells_view(),
                        *map,
                        origin,
                        octant,
                        full,
                    );
                    lemma_subset_keeps(before, visible.cells_view(), octant_cell(origin, -1, 1, octant));
                    lemma_subset_keeps(before, visible.cells_view(), octant_cell(origin, 0, 1, octant));
                }
                next_start_slope = right_slope;
                proof {
                    let sub = scan(*map, origin, radius as int, octant, j + 1, s0, sl(left_slope));
                    let t = scan_cells(
                            *map,
                            origin,
                            radius as int,
                            octant,
                            j as int,
                            dx0 + 1,
                            true,
                            s0,
                            sl(right_slope),
                            sl(end_slope),
                        );
                    assert(dd == (here + sub + t.0, t.1, t.2, t.3));
                    lemma_add3(vis_b, here, sub, t.0);
                }
            } else {
                proof {
                    let t = scan_cells(
                            *map,
                            origin,
                            radius as int,
                            octant,
                            j as int,
                            dx0 + 1,
                            false,
                            s0,
                            n0,
                            sl(end_slope),
                        );
                    assert(dd == (here + t.0, t.1, t.2, t.3));
                    lemma_add2(vis_b, here, t.0);
                }
            }
            dx = dx + 1;
        }
        proof {
            let rest = scan_rows(
                *map,
                origin,
                radius as int,
                octant,
                j + 1,
                c0.2,
                c0.3,
                sl(end_slope),
            );
            lemma_add2(vis0, c0.0, rest);
            if full && !row_done {
                row_done = true;
            }
            if full && !blocked && j + 1 <= radius && wall_before(*map, origin, octant, j + 1) {
                lemma_wall_before_next(*map, origin, octant, j as int);
                if wall_before(*map, origin, octant, j as int) {
                    lemma_below_ray_next(start_slope, j as int);
                }
            }
        }
        if blocked {
            break;
        }
        j = j + 1;
    }
}

/// Compute what can be seen from `origin` within `radius` by recursive shadowcasting over
/// the eight octants. `visible` is emptied first and then holds the origin and the lit
/// cells, each within Euclidean distance `radius` of the origin; the cells around the
/// origin that the radius reaches are always among them, walls or not. Where nothing
/// within the radius blocks sight, every cell within it is seen, so the result is exactly
/// the disk of that radius. Along the origin's row and column, nothing behind a wall is
/// seen.
pub fn compute_fov(map: &GameMap, origin: Coord, radius: i32, visible: &mut VisibleSet)
    requires
        map.wf(),
        fov_fits(origin, radius as int),
    ensures
        final(visible).wf(),
        final(visible).cells_view().contains(origin),
        all_within(final(visible).cells_view(), origin, radius as int),
        neighbours_seen(final(visible).cells_view(), origin, radius as int),
        0 <= radius && clear_around(*map, origin, radius as int) ==> disk_seen(
            final(visible).cells_view(),
            origin,
            radius as int,
        ),
        forall|x: Coord| #[trigger]
            final(visible).cells_view().contains(x) ==> !behind_wall(*map, origin, x),
        final(visible).cells_view() == fov_seq(*map, origin, radius as int),
{
    visible.clear();
    visible.insert(origin);
    proof {
        assert(visible.cells_view() =~= seq![origin]);
        assert(visible.cells_view()[0] == origin);
        assert(dist2(origin, origin) == 0);
        assert(radius * radius >= 0) by (nonlinear_arith);
        assert forall|x: Coord| #[trigger]
            visible.cells_view().contains(x) implies !behind_wall(*map, origin, x) by {
            let k = choose|k: int| 0 <= k < visible.cells_view().len() && visible.cells_view()[k] == x;
            assert(x == origin);
        }
    }
    if radius >= 0 {
        let mut octant: u8 = 0;
        while octant < 8
            invariant
                map.wf(),
                visible.wf(),
                visible.cells_view().to_set().contains(origin),
                all_within(visible.cells_view(), origin, radius as int),
                fov_fits(origin, radius as int),
                0 <= radius,
                octant <= 8,
                forall|o: u8| o < octant ==> #[trigger] first_row_lit(visible.cells_view(), origin, radius as int, o),
                forall|x: Coord| #[trigger]
                    visible.cells_view().contains(x) ==> !behind_wall(*map, origin, x),
                visible.cells_view() == fov_upto(*map, origin, radius as int, octant as nat),
                forall|o: u8|
                    o < octant && clear_around(*map, origin, radius as int) ==> #[trigger] octant_lit(
                        visible.cells_view(),
                        origin,
                        radius as int,
                        o,
                    ),
            decreases 8 - octant,
        {
            let ghost before = visible.cells_view();
            cast_light(map, origin.x, origin.y, radius, 1, (1, 1), (0, 1), octant, visible);
            proof {
                assert(sl((1i64, 1i64)) == (1int, 1int));
                assert(sl((0i64, 1i64)) == (0int, 1int));
                assert(visible.cells_view() == fov_upto(*map, origin, radius as int, (octant + 1) as nat));
                assert forall|x: Coord| #[trigger]
                    visible.cells_view().contains(x) implies !behind_wall(*map, origin, x) by {
                    if !before.contains(x) {
                        lemma_fresh_not_behind(*map, origin, x, octant);
                    }
                }
                assert forall|o: u8| o < octant + 1 implies #[trigger] first_row_lit(
                    visible.cells_view(),
                    origin,
                    radius as int,
                    o,
                ) by {
                    if o < octant {
                        assert(first_row_lit(before, origin, radius as int, o));
                        lemma_subset_keeps(before, visible.cells_view(), octant_cell(origin, -1, 1, o));
                        lemma_subset_keeps(before, visible.cells_view(), octant_cell(origin, 0, 1, o));
                    }
                }
                assert forall|o: u8|
                    o < octant + 1 && clear_around(*map, origin, radius as int) implies #[trigger] octant_lit(
                        visible.cells_view(),
                        origin,
                        radius as int,
                        o,
                    ) by {
                    if o < octant {
                        assert(octant_lit(before, origin, radius as int, o));
                        lemma_lit_mono(
                            before,
                            visible.cells_view(),
                            origin,
                            radius as int,
                            o,
                            radius + 1,
                            0,
                        );
                    }
                }
            }
            octant = octant + 1;
        }
        proof {
            let v = visible.cells_view();
            assert(first_row_lit(v, origin, radius as int, 0));
            assert(first_row_lit(v, origin, radius as int, 1));
            assert(first_row_lit(v, origin, radius as int, 2));
            assert(first_row_lit(v, origin, radius as int, 3));
            assert(first_row_lit(v, origin, radius as int, 4));
            assert(first_row_lit(v, origin, radius as int, 5));
            assert(first_row_lit(v, origin, radius as int, 6));
            assert(first_row_lit(v, origin, radius as int, 7));
            if clear_around(*map, origin, radius as int) {
                assert forall|c: Coord| dist2(c, origin) <= radius * radius implies #[trigger] v.contains(
                    c,
                ) by {
                    if c != origin {
                        let (o, d, jj) = lemma_octant_of(origin, c, radius as int);
                        assert(octant_lit(v, origin, radius as int, o));
                        assert(v.contains(octant_cell(origin, d, jj, o)));
                    }
                }
            }
        }
    }
    proof {
        assert(visible.cells_view().to_set().contains(origin));
    }
}

} // verus!
