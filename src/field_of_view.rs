use vstd::prelude::*;

use crate::map::TileMap;
use crate::overlay::Overlay;
use crate::{deterministic, lemma_result_of, result_of};

verus! {

/// What the shadow-casting sweep looks at: the grid's dimensions, which cells
/// let light through (row-major), the viewpoint and the radius.
pub struct Scene {
    pub width: int,
    pub height: int,
    pub open: Seq<bool>,
    pub origin: (int, int),
    pub radius: int,
}

/// The scene of a map as seen by the transparency test `f`.
pub open spec fn scene_of<T, F: Fn(&T) -> bool>(
    map: &TileMap<T>,
    f: &F,
    origin: (usize, usize),
    radius: usize,
) -> Scene {
    Scene {
        width: map.width as int,
        height: map.height as int,
        open: map.cells().map_values(|t: T| result_of(*f, &t)),
        origin: (origin.0 as int, origin.1 as int),
        radius: radius as int,
    }
}

/// The sign multipliers of octant `k`: a local offset `(dx, dy)` lands at
/// `(dx * m.0 + dy * m.1, dx * m.2 + dy * m.3)` from the viewpoint.
pub open spec fn octant(k: int) -> (int, int, int, int) {
    if k == 0 {
        (1, 0, 0, 1)
    } else if k == 1 {
        (0, 1, 1, 0)
    } else if k == 2 {
        (0, -1, 1, 0)
    } else if k == 3 {
        (-1, 0, 0, 1)
    } else if k == 4 {
        (-1, 0, 0, -1)
    } else if k == 5 {
        (0, -1, -1, 0)
    } else if k == 6 {
        (0, 1, -1, 0)
    } else {
        (1, 0, 0, -1)
    }
}

/// The grid cell at column `dx` of row `y` of the octant `m` (local `dy = -y`).
pub open spec fn cell_at(sc: Scene, m: (int, int, int, int), dx: int, y: int) -> (int, int) {
    (sc.origin.0 + dx * m.0 - y * m.1, sc.origin.1 + dx * m.2 - y * m.3)
}

/// `c` is a cell of the grid.
pub open spec fn on_grid(sc: Scene, c: (int, int)) -> bool {
    0 <= c.0 < sc.width && 0 <= c.1 < sc.height
}

/// Light passes through the cell `c`.
pub open spec fn clear(sc: Scene, c: (int, int)) -> bool {
    sc.open[c.1 * sc.width + c.0]
}

/// The slope at the right edge of a cell, `(dx + 1/2) / (dy - 1/2)` with
/// `dy = -y`. Slopes are fractions `(numerator, denominator)` with a positive
/// denominator, compared exactly.
pub open spec fn right_edge(dx: int, y: int) -> (int, int) {
    (-2 * dx - 1, 2 * y + 1)
}

/// The slope at the left edge of a cell, `(dx - 1/2) / (dy + 1/2)` with `dy = -y`.
pub open spec fn left_edge(dx: int, y: int) -> (int, int) {
    (1 - 2 * dx, 2 * y - 1)
}

/// Slope `a` is less than slope `b`.
pub open spec fn below(a: (int, int), b: (int, int)) -> bool {
    a.0 * b.1 < b.0 * a.1
}

/// The cell at `(dx, y)` lies strictly inside the radius.
pub open spec fn in_radius(sc: Scene, dx: int, y: int) -> bool {
    dx * dx + y * y < sc.radius * sc.radius
}

/// The sweep of row `y` from column `dx` on (up to column 1), given the current
/// start slope `begin`, the fixed end slope `end`, whether the sweep is in a
/// blocked run, and the slope saved for when that run ends. Gives the cells
/// lit on the way, including those of the sweeps spawned below, and the state
/// at the end of the row: `(lit, begin, blocked, saved)`.
pub open spec fn sweep_cols(
    sc: Scene,
    m: (int, int, int, int),
    y: int,
    dx: int,
    begin: (int, int),
    end: (int, int),
    blocked: bool,
    saved: (int, int),
) -> (Set<(int, int)>, (int, int), bool, (int, int))
    decreases sc.radius - y, 0int, 2 - dx,
{
    if dx > 1 || y >= sc.radius {
        (Set::empty(), begin, blocked, saved)
    } else {
        let c = cell_at(sc, m, dx, y);
        let right = right_edge(dx, y);
        let left = left_edge(dx, y);
        if !on_grid(sc, c) || below(begin, right) {
            sweep_cols(sc, m, y, dx + 1, begin, end, blocked, saved)
        } else if below(left, end) {
            (Set::empty(), begin, blocked, saved)
        } else {
            let lit: Set<(int, int)> = if in_radius(sc, dx, y) {
                set![c]
            } else {
                Set::empty()
            };
            if blocked {
                if !clear(sc, c) {
                    let r = sweep_cols(sc, m, y, dx + 1, begin, end, true, right);
                    (lit + r.0, r.1, r.2, r.3)
                } else {
                    let r = sweep_cols(sc, m, y, dx + 1, saved, end, false, saved);
                    (lit + r.0, r.1, r.2, r.3)
                }
            } else if !clear(sc, c) {
                let below_lit = scan(sc, m, y + 1, begin, left);
                let r = sweep_cols(sc, m, y, dx + 1, begin, end, true, right);
                (lit + below_lit + r.0, r.1, r.2, r.3)
            } else {
                let r = sweep_cols(sc, m, y, dx + 1, begin, end, false, saved);
                (lit + r.0, r.1, r.2, r.3)
            }
        }
    }
}

/// The sweep of rows `y` up to the radius; it stops after a row that ends blocked.
pub open spec fn sweep_rows(
    sc: Scene,
    m: (int, int, int, int),
    y: int,
    begin: (int, int),
    end: (int, int),
    saved: (int, int),
) -> Set<(int, int)>
    decreases sc.radius - y, 1int, 0int,
{
    if y >= sc.radius {
        Set::empty()
    } else {
        let r = sweep_cols(sc, m, y, -y, begin, end, false, saved);
        if r.2 {
            r.0
        } else {
            r.0 + sweep_rows(sc, m, y + 1, r.1, end, r.3)
        }
    }
}

/// The cells lit by a shadow-casting sweep of octant `m` from row `row` between
/// the slopes `begin` and `end`; nothing when `begin < end`.
pub open spec fn scan(
    sc: Scene,
    m: (int, int, int, int),
    row: int,
    begin: (int, int),
    end: (int, int),
) -> Set<(int, int)>
    decreases sc.radius - row, 2int, 0int,
{
    if below(begin, end) || row >= sc.radius {
        Set::empty()
    } else {
        sweep_rows(sc, m, row, begin, end, (0, 1))
    }
}

/// The cells lit by the sweeps of the first `k` octants, each from row 1 between
/// slopes 1 and 0.
pub open spec fn lit_octants(sc: Scene, k: int) -> Set<(int, int)>
    decreases k,
{
    if k <= 0 {
        Set::empty()
    } else {
        lit_octants(sc, k - 1) + scan(sc, octant(k - 1), 1, (1, 1), (0, 1))
    }
}

/// The cells visible from the viewpoint, besides the viewpoint itself.
pub open spec fn visible_cells(sc: Scene) -> Set<(int, int)> {
    lit_octants(sc, 8)
}

/// The largest radius whose square fits a signed 64-bit word; the sweep
/// compares squared distances against the squared radius.
pub const MAX_RADIUS: usize = 3037000499;

/// A slope held as `(numerator, denominator)`.
pub open spec fn slope_of(s: (i128, i128)) -> (int, int) {
    (s.0 as int, s.1 as int)
}

/// A slope whose parts stay within what rows up to `radius` produce.
pub open spec fn slope_ok(s: (i128, i128), radius: int) -> bool {
    0 < s.1 <= 2 * radius + 1 && -(2 * radius + 1) <= s.0 <= 2 * radius + 1
}

/// `a < b` for slopes with positive denominators.
fn slope_below(a: (i128, i128), b: (i128, i128), Ghost(radius): Ghost<int>) -> (r: bool)
    requires
        0 <= radius <= MAX_RADIUS,
        slope_ok(a, radius),
        slope_ok(b, radius),
    ensures
        r == below(slope_of(a), slope_of(b)),
{
    proof {
        let k = 2 * radius + 1;
        assert(-k <= a.0 <= k && 0 < b.1 <= k);
        assert(-(k * k) <= a.0 * b.1 <= k * k) by (nonlinear_arith)
            requires
                -k <= a.0 <= k,
                0 < b.1 <= k,
        ;
        assert(-(k * k) <= b.0 * a.1 <= k * k) by (nonlinear_arith)
            requires
                -k <= b.0 <= k,
                0 < a.1 <= k,
        ;
        assert(k * k <= 7000000000 * 7000000000) by (nonlinear_arith)
            requires
                0 < k <= 7000000000,
        ;
    }
    a.0 * b.1 < b.0 * a.1
}

/// One octant's sweep from row `row` between slopes `begin` and `end`: marks
/// the lit cells in `light_map`, spawning a deeper sweep where a blocked run
/// starts.
fn shadow_cast<T, F: Fn(&T) -> bool>(
    row: usize,
    begin: (i128, i128),
    end: (i128, i128),
    mults: (i128, i128, i128, i128),
    radius: usize,
    start: (usize, usize),
    light_map: &mut Overlay,
    map: &TileMap<T>,
    visible: &F,
)
    requires
        map.wf(),
        deterministic(*visible),
        old(light_map).width() == map.width,
        old(light_map).height() == map.height,
        1 <= row,
        radius <= MAX_RADIUS,
        slope_ok(begin, radius as int),
        slope_ok(end, radius as int),
        -1 <= mults.0 <= 1 && -1 <= mults.1 <= 1 && -1 <= mults.2 <= 1 && -1 <= mults.3 <= 1,
    ensures
        final(light_map).width() == old(light_map).width(),
        final(light_map).height() == old(light_map).height(),
        final(light_map).default_value() == old(light_map).default_value(),
        forall|q: (usize, usize)|
            old(light_map).in_bounds(q) ==> #[trigger] final(light_map).at(q) == (old(
                light_map,
            ).at(q) || scan(
                scene_of(map, visible, start, radius),
                (mults.0 as int, mults.1 as int, mults.2 as int, mults.3 as int),
                row as int,
                slope_of(begin),
                slope_of(end),
            ).contains((q.0 as int, q.1 as int))),
    decreases radius - row,
{
    let ghost sc = scene_of(map, visible, start, radius);
    let ghost m = (mults.0 as int, mults.1 as int, mults.2 as int, mults.3 as int);
    let ghost r = radius as int;
    let ghost target = scan(sc, m, row as int, slope_of(begin), slope_of(end));
    let ghost entry = *light_map;
    if row >= radius || slope_below(begin, end, Ghost(r)) {
        return;
    }
    assert(0 <= r * r <= MAX_RADIUS * MAX_RADIUS) by (nonlinear_arith)
        requires
            0 <= r <= MAX_RADIUS,
    ;
    let radius_2: i128 = radius as i128 * radius as i128;
    let mut begin = begin;
    let mut new_begin: (i128, i128) = (0, 1);
    let mut blocked = false;
    let ghost mut done: Set<(int, int)> = Set::empty();
    let mut y: usize = row;
    while y < radius
        invariant_except_break
            !blocked,
            done + sweep_rows(sc, m, y as int, slope_of(begin), slope_of(end), slope_of(new_begin))
                == target,
        invariant
            map.wf(),
            deterministic(*visible),
            sc == scene_of(map, visible, start, radius),
            m == (mults.0 as int, mults.1 as int, mults.2 as int, mults.3 as int),
            r == radius as int,
            radius <= MAX_RADIUS,
            -1 <= mults.0 <= 1 && -1 <= mults.1 <= 1 && -1 <= mults.2 <= 1 && -1 <= mults.3 <= 1,
            radius_2 == r * r,
            radius_2 <= MAX_RADIUS * MAX_RADIUS,
            1 <= row <= y <= radius,
            slope_ok(begin, r),
            slope_ok(end, r),
            slope_ok(new_begin, r),
            light_map.width() == map.width,
            light_map.height() == map.height,
            light_map.default_value() == entry.default_value(),
            forall|q: (usize, usize)|
                light_map.in_bounds(q) ==> #[trigger] light_map.at(q) == (entry.at(q)
                    || done.contains((q.0 as int, q.1 as int))),
        ensures
            forall|q: (usize, usize)|
                light_map.in_bounds(q) ==> #[trigger] light_map.at(q) == (entry.at(q)
                    || target.contains((q.0 as int, q.1 as int))),
            light_map.width() == map.width,
            light_map.height() == map.height,
            light_map.default_value() == entry.default_value(),
        decreases radius - y,
    {
        let yy: i128 = y as i128;
        let dy: i128 = -yy;
        let mut dx: i128 = -yy - 1;
        while dx <= 0
            invariant_except_break
                ({
                    let c = sweep_cols(
                        sc,
                        m,
                        y as int,
                        dx + 1,
                        slope_of(begin),
                        slope_of(end),
                        blocked,
                        slope_of(new_begin),
                    );
                    done + c.0 + (if c.2 {
                        Set::empty()
                    } else {
                        sweep_rows(sc, m, y as int + 1, c.1, slope_of(end), c.3)
                    }) == target
                }),
            invariant
                map.wf(),
                deterministic(*visible),
                sc == scene_of(map, visible, start, radius),
                m == (mults.0 as int, mults.1 as int, mults.2 as int, mults.3 as int),
                r == radius as int,
                radius <= MAX_RADIUS,
                -1 <= mults.0 <= 1 && -1 <= mults.1 <= 1 && -1 <= mults.2 <= 1 && -1 <= mults.3
                    <= 1,
                radius_2 == r * r,
                radius_2 <= MAX_RADIUS * MAX_RADIUS,
                1 <= row <= y < radius,
                yy == y,
                dy == -yy,
                -yy - 1 <= dx <= 1,
                slope_ok(begin, r),
                slope_ok(end, r),
                slope_ok(new_begin, r),
                light_map.width() == map.width,
                light_map.height() == map.height,
                light_map.default_value() == entry.default_value(),
                forall|q: (usize, usize)|
                    light_map.in_bounds(q) ==> #[trigger] light_map.at(q) == (entry.at(q)
                        || done.contains((q.0 as int, q.1 as int))),
            ensures
                done + (if blocked {
                    Set::empty()
                } else {
                    sweep_rows(sc, m, y as int + 1, slope_of(begin), slope_of(end), slope_of(new_begin))
                }) == target,
                slope_ok(begin, r),
                slope_ok(new_begin, r),
                light_map.width() == map.width,
                light_map.height() == map.height,
                light_map.default_value() == entry.default_value(),
                forall|q: (usize, usize)|
                    light_map.in_bounds(q) ==> #[trigger] light_map.at(q) == (entry.at(q)
                        || done.contains((q.0 as int, q.1 as int))),
            decreases 1 - dx,
        {
            dx = dx + 1;
            assert(-(r + 1) <= dx * mults.0 <= r + 1 && -(r + 1) <= dx * mults.2 <= r + 1) by (nonlinear_arith)
                requires
                    -r - 1 <= dx <= 1,
                    -1 <= mults.0 <= 1,
                    -1 <= mults.2 <= 1,
                    0 <= r,
            ;
            assert(-r <= dy * mults.1 <= r && -r <= dy * mults.3 <= r) by (nonlinear_arith)
                requires
                    -r <= dy <= 0,
                    -1 <= mults.1 <= 1,
                    -1 <= mults.3 <= 1,
            ;
            let ghost cell = cell_at(sc, m, dx as int, y as int);
            let current_x: i128 = start.0 as i128 + dx * mults.0 + dy * mults.1;
            let current_y: i128 = start.1 as i128 + dx * mults.2 + dy * mults.3;
            assert(current_x == cell.0 && current_y == cell.1) by (nonlinear_arith)
                requires
                    cell == cell_at(sc, m, dx as int, y as int),
                    sc.origin == (start.0 as int, start.1 as int),
                    current_x == start.0 + dx * mults.0 + dy * mults.1,
                    current_y == start.1 + dx * mults.2 + dy * mults.3,
                    m == (mults.0 as int, mults.1 as int, mults.2 as int, mults.3 as int),
                    dy == -(y as int),
            ;
            if current_x < 0 || current_y < 0 {
                continue;
            }
            if current_x > usize::MAX as i128 || current_y > usize::MAX as i128 {
                continue;
            }
            assert(-r <= dx <= 1 && 0 <= yy < r);
            assert(-(2 * r + 1) <= -2 * dx - 1 <= 2 * r + 1);
            assert(-(2 * r + 1) <= 1 - 2 * dx <= 2 * r + 1);
            let right_slope: (i128, i128) = (-2 * dx - 1, 2 * yy + 1);
            if slope_below(begin, right_slope, Ghost(r)) {
                continue;
            }
            let current: (usize, usize) = (current_x as usize, current_y as usize);
            if !map.is_valid_loc(&current) {
                continue;
            }
            let left_slope: (i128, i128) = (1 - 2 * dx, 2 * yy - 1);
            if slope_below(left_slope, end, Ghost(r)) {
                break;
            }
            let ghost lit: Set<(int, int)> = if in_radius(sc, dx as int, y as int) {
                set![cell]
            } else {
                Set::empty()
            };
            assert(0 <= dx * dx <= r * r && 0 <= dy * dy <= r * r && dy * dy == (y as int) * (
            y as int)) by (nonlinear_arith)
                requires
                    -r <= dx <= 1,
                    -r <= dy <= 0,
                    dy == -(y as int),
                    1 <= r,
            ;
            assert(in_radius(sc, dx as int, y as int) == (dx * dx + dy * dy < radius_2));
            assert((current.0 as int, current.1 as int) == cell);
            if dx * dx + dy * dy < radius_2 {
                light_map.set(current, true);
            }
            proof {
                done = done + lit;
            }
            let tile = map.get(&current).unwrap();
            let clear_here = visible(tile);
            proof {
                lemma_result_of(*visible, tile, clear_here);
                crate::map::lemma_index_in_range(
                    current.0 as int,
                    current.1 as int,
                    map.width as int,
                    map.height as int,
                );
                assert(clear(sc, cell) == clear_here);
            }
            if blocked {
                if !clear_here {
                    new_begin = right_slope;
                } else {
                    blocked = false;
                    begin = new_begin;
                }
            } else {
                if !clear_here && y < radius {
                    blocked = true;
                    shadow_cast(y + 1, begin, left_slope, mults, radius, start, light_map, map, visible);
                    proof {
                        done = done + scan(sc, m, y as int + 1, slope_of(begin), slope_of(left_slope));
                    }
                    new_begin = right_slope;
                }
            }
        }
        if blocked {
            break;
        }
        y = y + 1;
    }
}

/// Recursive shadow-casting from `start`: resets `light_map`, marks `start`,
/// then sweeps the eight octants out to `radius`, marking each cell the
/// sweeps reach strictly inside the radius. Transparency comes from `visible`;
/// the map is only read.
pub fn calculate_field_of_view<T, F: Fn(&T) -> bool>(
    map: &TileMap<T>,
    start: (usize, usize),
    radius: usize,
    light_map: &mut Overlay,
    visible: &F,
)
    requires
        map.wf(),
        deterministic(*visible),
        old(light_map).width() == map.width,
        old(light_map).height() == map.height,
        radius <= MAX_RADIUS,
    ensures
        final(light_map).width() == old(light_map).width(),
        final(light_map).height() == old(light_map).height(),
        final(light_map).default_value() == old(light_map).default_value(),
        forall|q: (usize, usize)|
            old(light_map).in_bounds(q) ==> #[trigger] final(light_map).at(q) == (old(
                light_map,
            ).default_value() || q == start || visible_cells(
                scene_of(map, visible, start, radius),
            ).contains((q.0 as int, q.1 as int))),
{
    let ghost sc = scene_of(map, visible, start, radius);
    let ghost d = light_map.default_value();
    light_map.reset();
    light_map.set(start, true);
    let multipliers: Vec<(i128, i128, i128, i128)> = vec![
        (1, 0, 0, 1),
        (0, 1, 1, 0),
        (0, -1, 1, 0),
        (-1, 0, 0, 1),
        (-1, 0, 0, -1),
        (0, -1, -1, 0),
        (0, 1, -1, 0),
        (1, 0, 0, -1),
    ];
    assert(forall|k: int|
        0 <= k < 8 ==> {
            let t = #[trigger] multipliers@[k];
            octant(k) == (t.0 as int, t.1 as int, t.2 as int, t.3 as int)
        });
    let mut k: usize = 0;
    while k < 8
        invariant
            map.wf(),
            deterministic(*visible),
            sc == scene_of(map, visible, start, radius),
            radius <= MAX_RADIUS,
            multipliers@.len() == 8,
            forall|j: int|
                0 <= j < 8 ==> {
                    let t = #[trigger] multipliers@[j];
                    octant(j) == (t.0 as int, t.1 as int, t.2 as int, t.3 as int)
                },
            k <= 8,
            light_map.width() == map.width,
            light_map.height() == map.height,
            light_map.default_value() == d,
            forall|q: (usize, usize)|
                light_map.in_bounds(q) ==> #[trigger] light_map.at(q) == (d || q == start
                    || lit_octants(sc, k as int).contains((q.0 as int, q.1 as int))),
        decreases 8 - k,
    {
        let mults = multipliers[k];
        assert(-1 <= mults.0 <= 1 && -1 <= mults.1 <= 1 && -1 <= mults.2 <= 1 && -1 <= mults.3 <= 1) by {
            assert(octant(k as int) == (mults.0 as int, mults.1 as int, mults.2 as int, mults.3 as int));
        }
        shadow_cast(1, (1, 1), (0, 1), mults, radius, start, light_map, map, visible);
        assert(octant(k as int) == (mults.0 as int, mults.1 as int, mults.2 as int, mults.3 as int));
        k = k + 1;
    }
}

/// The squared distance from the viewpoint to `c`.
pub open spec fn dist2(sc: Scene, c: (int, int)) -> int {
    (c.0 - sc.origin.0) * (c.0 - sc.origin.0) + (c.1 - sc.origin.1) * (c.1 - sc.origin.1)
}

/// `m` is the sign multiplier set of one of the eight octants.
pub open spec fn is_octant(m: (int, int, int, int)) -> bool {
    m == octant(0) || m == octant(1) || m == octant(2) || m == octant(3) || m == octant(4) || m
        == octant(5) || m == octant(6) || m == octant(7)
}

/// A set of cells that are on the grid, not the viewpoint, and strictly inside the radius.
pub open spec fn within_sight(sc: Scene, s: Set<(int, int)>) -> bool {
    forall|c: (int, int)|
        #[trigger] s.contains(c) ==> on_grid(sc, c) && c != sc.origin && dist2(sc, c) < sc.radius
            * sc.radius
}

/// Where each octant puts column `dx` of row `y`.
proof fn lemma_octant_cell(sc: Scene, m: (int, int, int, int), dx: int, y: int)
    ensures
        m == octant(0) ==> cell_at(sc, m, dx, y) == (sc.origin.0 + dx, sc.origin.1 - y),
        m == octant(1) ==> cell_at(sc, m, dx, y) == (sc.origin.0 - y, sc.origin.1 + dx),
        m == octant(2) ==> cell_at(sc, m, dx, y) == (sc.origin.0 + y, sc.origin.1 + dx),
        m == octant(3) ==> cell_at(sc, m, dx, y) == (sc.origin.0 - dx, sc.origin.1 - y),
        m == octant(4) ==> cell_at(sc, m, dx, y) == (sc.origin.0 - dx, sc.origin.1 + y),
        m == octant(5) ==> cell_at(sc, m, dx, y) == (sc.origin.0 + y, sc.origin.1 - dx),
        m == octant(6) ==> cell_at(sc, m, dx, y) == (sc.origin.0 - y, sc.origin.1 - dx),
        m == octant(7) ==> cell_at(sc, m, dx, y) == (sc.origin.0 + dx, sc.origin.1 + y),
{
    if m == octant(0) {
        assert(dx * m.0 - y * m.1 == dx && dx * m.2 - y * m.3 == -y) by (nonlinear_arith)
            requires
                m == (1int, 0int, 0int, 1int),
        ;
    } else if m == octant(1) {
        assert(dx * m.0 - y * m.1 == -y && dx * m.2 - y * m.3 == dx) by (nonlinear_arith)
            requires
                m == (0int, 1int, 1int, 0int),
        ;
    } else if m == octant(2) {
        assert(dx * m.0 - y * m.1 == y && dx * m.2 - y * m.3 == dx) by (nonlinear_arith)
            requires
                m == (0int, -1int, 1int, 0int),
        ;
    } else if m == octant(3) {
        assert(dx * m.0 - y * m.1 == -dx && dx * m.2 - y * m.3 == -y) by (nonlinear_arith)
            requires
                m == (-1int, 0int, 0int, 1int),
        ;
    } else if m == octant(4) {
        assert(dx * m.0 - y * m.1 == -dx && dx * m.2 - y * m.3 == y) by (nonlinear_arith)
            requires
                m == (-1int, 0int, 0int, -1int),
        ;
    } else if m == octant(5) {
        assert(dx * m.0 - y * m.1 == y && dx * m.2 - y * m.3 == -dx) by (nonlinear_arith)
            requires
                m == (0int, -1int, -1int, 0int),
        ;
    } else if m == octant(6) {
        assert(dx * m.0 - y * m.1 == -y && dx * m.2 - y * m.3 == -dx) by (nonlinear_arith)
            requires
                m == (0int, 1int, -1int, 0int),
        ;
    } else if m == octant(7) {
        assert(dx * m.0 - y * m.1 == dx && dx * m.2 - y * m.3 == y) by (nonlinear_arith)
            requires
                m == (1int, 0int, 0int, -1int),
        ;
    }
}

/// An octant maps row `y` and column `dx` to a cell at squared distance
/// `dx * dx + y * y`, never the viewpoint for `y >= 1`.
proof fn lemma_cell_dist(sc: Scene, m: (int, int, int, int), dx: int, y: int)
    requires
        is_octant(m),
        y >= 1,
    ensures
        dist2(sc, cell_at(sc, m, dx, y)) == dx * dx + y * y,
        cell_at(sc, m, dx, y) != sc.origin,
{
    lemma_octant_cell(sc, m, dx, y);
    assert((-y) * (-y) == y * y && (-dx) * (-dx) == dx * dx) by (nonlinear_arith);
}

proof fn lemma_cols_within(
    sc: Scene,
    m: (int, int, int, int),
    y: int,
    dx: int,
    begin: (int, int),
    end: (int, int),
    blocked: bool,
    saved: (int, int),
)
    requires
        is_octant(m),
        y >= 1,
    ensures
        within_sight(sc, sweep_cols(sc, m, y, dx, begin, end, blocked, saved).0),
    decreases sc.radius - y, 0int, 2 - dx,
{
    if dx > 1 || y >= sc.radius {
    } else {
        let c = cell_at(sc, m, dx, y);
        let right = right_edge(dx, y);
        let left = left_edge(dx, y);
        lemma_cell_dist(sc, m, dx, y);
        if !on_grid(sc, c) || below(begin, right) {
            lemma_cols_within(sc, m, y, dx + 1, begin, end, blocked, saved);
        } else if below(left, end) {
        } else {
            if blocked {
                if !clear(sc, c) {
                    lemma_cols_within(sc, m, y, dx + 1, begin, end, true, right);
                } else {
                    lemma_cols_within(sc, m, y, dx + 1, saved, end, false, saved);
                }
            } else if !clear(sc, c) {
                lemma_scan_within(sc, m, y + 1, begin, left);
                lemma_cols_within(sc, m, y, dx + 1, begin, end, true, right);
            } else {
                lemma_cols_within(sc, m, y, dx + 1, begin, end, false, saved);
            }
        }
    }
}

proof fn lemma_rows_within(
    sc: Scene,
    m: (int, int, int, int),
    y: int,
    begin: (int, int),
    end: (int, int),
    saved: (int, int),
)
    requires
        is_octant(m),
        y >= 1,
    ensures
        within_sight(sc, sweep_rows(sc, m, y, begin, end, saved)),
    decreases sc.radius - y, 1int, 0int,
{
    if y < sc.radius {
        let r = sweep_cols(sc, m, y, -y, begin, end, false, saved);
        lemma_cols_within(sc, m, y, -y, begin, end, false, saved);
        if !r.2 {
            lemma_rows_within(sc, m, y + 1, r.1, end, r.3);
        }
    }
}

proof fn lemma_scan_within(sc: Scene, m: (int, int, int, int), row: int, begin: (int, int), end: (int, int))
    requires
        is_octant(m),
        row >= 1,
    ensures
        within_sight(sc, scan(sc, m, row, begin, end)),
    decreases sc.radius - row, 2int, 0int,
{
    if !(below(begin, end) || row >= sc.radius) {
        lemma_rows_within(sc, m, row, begin, end, (0, 1));
    }
}

/// Whatever blocks the view, every visible cell is on the grid, is not the
/// viewpoint, and lies strictly inside the radius.
pub proof fn lemma_visible_within_radius(sc: Scene)
    ensures
        within_sight(sc, visible_cells(sc)),
{
    lemma_lit_within(sc, 8);
}

proof fn lemma_lit_within(sc: Scene, k: int)
    requires
        k <= 8,
    ensures
        within_sight(sc, lit_octants(sc, k)),
    decreases k,
{
    if k > 0 {
        lemma_lit_within(sc, k - 1);
        lemma_scan_within(sc, octant(k - 1), 1, (1, 1), (0, 1));
    }
}

/// Nothing on the grid blocks the view.
pub open spec fn all_clear(sc: Scene) -> bool {
    forall|c: (int, int)| on_grid(sc, c) ==> #[trigger] clear(sc, c)
}

/// With nothing in the way, a row swept between slopes 1 and 0 lights every
/// on-grid cell from column `dx` to 0 inside the radius, and ends unblocked at slope 1.
proof fn lemma_cols_open(sc: Scene, m: (int, int, int, int), y: int, dx: int, saved: (int, int))
    requires
        all_clear(sc),
        1 <= y < sc.radius,
        -y <= dx,
    ensures
        ({
            let r = sweep_cols(sc, m, y, dx, (1, 1), (0, 1), false, saved);
            &&& !r.2
            &&& r.1 == (1int, 1int)
            &&& forall|i: int|
                dx <= i <= 0 && on_grid(sc, cell_at(sc, m, i, y)) && in_radius(sc, i, y)
                    ==> #[trigger] r.0.contains(cell_at(sc, m, i, y))
        }),
    decreases 2 - dx,
{
    if dx <= 1 {
        let c = cell_at(sc, m, dx, y);
        let right = right_edge(dx, y);
        let left = left_edge(dx, y);
        assert(!below((1, 1), right));
        if !on_grid(sc, c) {
            lemma_cols_open(sc, m, y, dx + 1, saved);
        } else if below(left, (0, 1)) {
            assert(dx == 1);
        } else {
            assert(clear(sc, c));
            lemma_cols_open(sc, m, y, dx + 1, saved);
        }
    }
}

/// With nothing in the way, the rows from `y` on light every on-grid cell of
/// columns `-y'..=0` of each row `y'` inside the radius.
proof fn lemma_rows_open(sc: Scene, m: (int, int, int, int), y: int, saved: (int, int))
    requires
        all_clear(sc),
        1 <= y,
    ensures
        forall|j: int, i: int|
            y <= j < sc.radius && -j <= i <= 0 && on_grid(sc, cell_at(sc, m, i, j)) && in_radius(
                sc,
                i,
                j,
            ) ==> #[trigger] sweep_rows(sc, m, y, (1, 1), (0, 1), saved).contains(cell_at(sc, m, i, j)),
    decreases sc.radius - y,
{
    if y < sc.radius {
        let r = sweep_cols(sc, m, y, -y, (1, 1), (0, 1), false, saved);
        lemma_cols_open(sc, m, y, -y, saved);
        lemma_rows_open(sc, m, y + 1, r.3);
        let all = sweep_rows(sc, m, y, (1, 1), (0, 1), saved);
        assert(all == r.0 + sweep_rows(sc, m, y + 1, (1, 1), (0, 1), r.3));
        assert forall|j: int, i: int|
            y <= j < sc.radius && -j <= i <= 0 && on_grid(sc, cell_at(sc, m, i, j)) && in_radius(
                sc,
                i,
                j,
            ) implies #[trigger] all.contains(cell_at(sc, m, i, j)) by {
            if j == y {
                assert(r.0.contains(cell_at(sc, m, i, j)));
            } else {
                assert(sweep_rows(sc, m, y + 1, (1, 1), (0, 1), r.3).contains(cell_at(sc, m, i, j)));
            }
        }
    }
}

/// Each octant's sweep is part of what the first `k` octants light, for `k` past it.
proof fn lemma_lit_grows(sc: Scene, j: int, k: int)
    requires
        0 <= j < k,
    ensures
        scan(sc, octant(j), 1, (1, 1), (0, 1)).subset_of(lit_octants(sc, k)),
    decreases k,
{
    if j < k - 1 {
        lemma_lit_grows(sc, j, k - 1);
    }
}

/// In a room where nothing blocks the view, the visible cells are exactly the
/// on-grid cells other than the viewpoint strictly inside the radius
/// (squared distance below the squared radius).
pub proof fn lemma_open_room_is_disc(sc: Scene)
    requires
        sc.radius >= 0,
        all_clear(sc),
    ensures
        forall|c: (int, int)|
            #[trigger] visible_cells(sc).contains(c) <==> (on_grid(sc, c) && c != sc.origin && dist2(
                sc,
                c,
            ) < sc.radius * sc.radius),
{
    lemma_visible_within_radius(sc);
    assert forall|c: (int, int)|
        on_grid(sc, c) && c != sc.origin && dist2(sc, c) < sc.radius * sc.radius implies #[trigger] visible_cells(
        sc,
    ).contains(c) by {
        let a = c.0 - sc.origin.0;
        let b = c.1 - sc.origin.1;
        let aa = if a >= 0 { a } else { -a };
        let bb = if b >= 0 { b } else { -b };
        let y = if aa >= bb { aa } else { bb };
        assert(y >= 1);
        assert(aa * aa == a * a && bb * bb == b * b) by (nonlinear_arith)
            requires
                aa == a || aa == -a,
                bb == b || bb == -b,
        ;
        assert(y * y <= a * a + b * b) by (nonlinear_arith)
            requires
                y == aa || y == bb,
                aa * aa == a * a,
                bb * bb == b * b,
                aa >= 0,
                bb >= 0,
        ;
        assert(y < sc.radius) by (nonlinear_arith)
            requires
                y * y < sc.radius * sc.radius,
                y >= 1,
                sc.radius >= 0,
        ;
        let (k, i) = if b == -y && a <= 0 {
            (0int, a)
        } else if a == -y && b <= 0 {
            (1int, b)
        } else if a == y && b <= 0 {
            (2int, b)
        } else if b == -y {
            (3int, -a)
        } else if b == y && a >= 0 {
            (4int, -a)
        } else if a == y {
            (5int, -b)
        } else if a == -y {
            (6int, -b)
        } else {
            (7int, a)
        };
        assert(0 <= k < 8);
        assert(-y <= i <= 0);
        lemma_octant_cell(sc, octant(k), i, y);
        assert(cell_at(sc, octant(k), i, y) == c);
        lemma_cell_dist(sc, octant(k), i, y);
        assert(in_radius(sc, i, y));
        lemma_rows_open(sc, octant(k), 1, (0, 1));
        assert(scan(sc, octant(k), 1, (1, 1), (0, 1)) == sweep_rows(sc, octant(k), 1, (1, 1), (0, 1), (0, 1)));
        lemma_lit_grows(sc, k, 8);
    }
}

/// On a map where `visible` holds for every cell, `calculate_field_of_view`
/// marks, besides the viewpoint, exactly the cells whose squared distance from
/// it is below the squared radius.
pub proof fn lemma_open_map_fov<T, F: Fn(&T) -> bool>(
    map: &TileMap<T>,
    visible: &F,
    start: (usize, usize),
    radius: usize,
)
    requires
        map.wf(),
        forall|i: int| 0 <= i < map.cells().len() ==> result_of(*visible, &#[trigger] map.cells()[i]),
    ensures
        forall|q: (usize, usize)|
            map.in_bounds(q) ==> (#[trigger] visible_cells(scene_of(map, visible, start, radius)).contains(
                (q.0 as int, q.1 as int),
            ) <==> (q != start && (q.0 - start.0) * (q.0 - start.0) + (q.1 - start.1) * (q.1
                - start.1) < radius * radius)),
{
    let sc = scene_of(map, visible, start, radius);
    assert forall|c: (int, int)| on_grid(sc, c) implies #[trigger] clear(sc, c) by {
        crate::map::lemma_index_in_range(c.0, c.1, map.width as int, map.height as int);
    }
    lemma_open_room_is_disc(sc);
}

/// `c` is the cell at some column `dx` of some row `y >= 1` of octant `m`
/// whose left edge is not below the slope `end`.
pub open spec fn ahead_of(sc: Scene, m: (int, int, int, int), c: (int, int), end: (int, int)) -> bool {
    exists|dx: int, y: int|
        y >= 1 && #[trigger] cell_at(sc, m, dx, y) == c && !below(left_edge(dx, y), end)
}

/// Every cell of `s` is ahead of `end` in octant `m`.
pub open spec fn all_ahead(sc: Scene, m: (int, int, int, int), s: Set<(int, int)>, end: (int, int)) -> bool {
    forall|c: (int, int)| #[trigger] s.contains(c) ==> ahead_of(sc, m, c, end)
}

/// `a >= b` and `b >= c` give `a >= c` for slopes with positive denominators.
proof fn lemma_slope_order(a: (int, int), b: (int, int), c: (int, int))
    requires
        a.1 > 0,
        b.1 > 0,
        c.1 > 0,
        !below(a, b),
        !below(b, c),
    ensures
        !below(a, c),
{
    assert(a.0 * c.1 >= c.0 * a.1) by (nonlinear_arith)
        requires
            a.1 > 0,
            b.1 > 0,
            c.1 > 0,
            a.0 * b.1 >= b.0 * a.1,
            b.0 * c.1 >= c.0 * b.1,
    ;
}

/// Being ahead of a slope implies being ahead of any slope not above it.
proof fn lemma_ahead_weaken(
    sc: Scene,
    m: (int, int, int, int),
    s: Set<(int, int)>,
    e1: (int, int),
    e2: (int, int),
)
    requires
        all_ahead(sc, m, s, e1),
        e1.1 > 0,
        e2.1 > 0,
        !below(e1, e2),
    ensures
        all_ahead(sc, m, s, e2),
{
    assert forall|c: (int, int)| #[trigger] s.contains(c) implies ahead_of(sc, m, c, e2) by {
        let (dx, y) = choose|dx: int, y: int|
            y >= 1 && #[trigger] cell_at(sc, m, dx, y) == c && !below(left_edge(dx, y), e1);
        lemma_slope_order(left_edge(dx, y), e1, e2);
        assert(cell_at(sc, m, dx, y) == c);
    }
}

proof fn lemma_cols_ahead(
    sc: Scene,
    m: (int, int, int, int),
    y: int,
    dx: int,
    begin: (int, int),
    end: (int, int),
    blocked: bool,
    saved: (int, int),
)
    requires
        y >= 1,
        end.1 > 0,
    ensures
        all_ahead(sc, m, sweep_cols(sc, m, y, dx, begin, end, blocked, saved).0, end),
    decreases sc.radius - y, 0int, 2 - dx,
{
    if dx > 1 || y >= sc.radius {
    } else {
        let c = cell_at(sc, m, dx, y);
        let right = right_edge(dx, y);
        let left = left_edge(dx, y);
        if !on_grid(sc, c) || below(begin, right) {
            lemma_cols_ahead(sc, m, y, dx + 1, begin, end, blocked, saved);
        } else if below(left, end) {
        } else {
            assert(ahead_of(sc, m, c, end));
            if blocked {
                if !clear(sc, c) {
                    lemma_cols_ahead(sc, m, y, dx + 1, begin, end, true, right);
                } else {
                    lemma_cols_ahead(sc, m, y, dx + 1, saved, end, false, saved);
                }
            } else if !clear(sc, c) {
                lemma_scan_ahead(sc, m, y + 1, begin, left);
                lemma_ahead_weaken(sc, m, scan(sc, m, y + 1, begin, left), left, end);
                lemma_cols_ahead(sc, m, y, dx + 1, begin, end, true, right);
            } else {
                lemma_cols_ahead(sc, m, y, dx + 1, begin, end, false, saved);
            }
        }
    }
}

proof fn lemma_rows_ahead(
    sc: Scene,
    m: (int, int, int, int),
    y: int,
    begin: (int, int),
    end: (int, int),
    saved: (int, int),
)
    requires
        y >= 1,
        end.1 > 0,
    ensures
        all_ahead(sc, m, sweep_rows(sc, m, y, begin, end, saved), end),
    decreases sc.radius - y, 1int, 0int,
{
    if y < sc.radius {
        let r = sweep_cols(sc, m, y, -y, begin, end, false, saved);
        lemma_cols_ahead(sc, m, y, -y, begin, end, false, saved);
        if !r.2 {
            lemma_rows_ahead(sc, m, y + 1, r.1, end, r.3);
        }
    }
}

/// Every cell a sweep lights lies in one of its rows, within its end slope.
proof fn lemma_scan_ahead(sc: Scene, m: (int, int, int, int), row: int, begin: (int, int), end: (int, int))
    requires
        row >= 1,
        end.1 > 0,
    ensures
        all_ahead(sc, m, scan(sc, m, row, begin, end), end),
    decreases sc.radius - row, 2int, 0int,
{
    if !(below(begin, end) || row >= sc.radius) {
        lemma_rows_ahead(sc, m, row, begin, end, (0, 1));
    }
}

/// Within one octant, different columns or rows are different cells.
proof fn lemma_cell_at_injective(sc: Scene, m: (int, int, int, int), dx1: int, y1: int, dx2: int, y2: int)
    requires
        is_octant(m),
        cell_at(sc, m, dx1, y1) == cell_at(sc, m, dx2, y2),
    ensures
        dx1 == dx2 && y1 == y2,
{
    lemma_octant_cell(sc, m, dx1, y1);
    lemma_octant_cell(sc, m, dx2, y2);
}

/// In the sweep of one octant from the viewpoint, an opaque cell in column 0
/// of the first row hides the cells of column 0 in all further rows.
proof fn lemma_blocked_column(sc: Scene, m: (int, int, int, int), k: int)
    requires
        is_octant(m),
        on_grid(sc, cell_at(sc, m, 0, 1)),
        !clear(sc, cell_at(sc, m, 0, 1)),
        k >= 2,
    ensures
        !scan(sc, m, 1, (1, 1), (0, 1)).contains(cell_at(sc, m, 0, k)),
        sc.radius >= 2 ==> scan(sc, m, 1, (1, 1), (0, 1)).contains(cell_at(sc, m, 0, 1)),
{
    let target = cell_at(sc, m, 0, k);
    if sc.radius > 1 {
        let one = (1int, 1int);
        let zero = (0int, 1int);
        let r = sweep_cols(sc, m, 1, -1, one, zero, false, zero);
        assert(scan(sc, m, 1, one, zero) == sweep_rows(sc, m, 1, one, zero, zero));
        assert(sc.radius * sc.radius > 1) by (nonlinear_arith)
            requires
                sc.radius > 1,
        ;
        let cm = cell_at(sc, m, -1, 1);
        let c0 = cell_at(sc, m, 0, 1);
        let c1 = cell_at(sc, m, 1, 1);
        let hidden = scan(sc, m, 2, one, one);
        lemma_scan_ahead(sc, m, 2, one, one);
        assert(!hidden.contains(target)) by {
            if hidden.contains(target) {
                let (dx, y) = choose|dx: int, y: int|
                    y >= 1 && #[trigger] cell_at(sc, m, dx, y) == target && !below(left_edge(dx, y), one);
                lemma_cell_at_injective(sc, m, dx, y, 0, k);
            }
        }
        if !on_grid(sc, c1) {
            assert(sweep_cols(sc, m, 1, 2, one, zero, true, right_edge(0, 1)).2);
        }
        let after0 = sweep_cols(sc, m, 1, 1, one, zero, true, right_edge(0, 1));
        assert(after0.2 && after0.0 == Set::<(int, int)>::empty());
        if c0 == target {
            lemma_cell_at_injective(sc, m, 0, 1, 0, k);
        }
        if cm == target {
            lemma_cell_at_injective(sc, m, -1, 1, 0, k);
        }
        if !on_grid(sc, cm) {
            let s0 = sweep_cols(sc, m, 1, 0, one, zero, false, zero);
            assert(r == s0);
            assert(s0.2);
            assert(!s0.0.contains(target));
            assert(s0.0.contains(c0));
        } else if clear(sc, cm) {
            let s0 = sweep_cols(sc, m, 1, 0, one, zero, false, zero);
            assert(s0.2);
            assert(!s0.0.contains(target));
            assert(s0.0.contains(c0));
        } else {
            let s0 = sweep_cols(sc, m, 1, 0, one, zero, true, right_edge(-1, 1));
            assert(s0.2);
            assert(!s0.0.contains(target));
            assert(s0.0.contains(c0));
            assert(scan(sc, m, 2, one, left_edge(-1, 1)) == Set::<(int, int)>::empty());
        }
        assert(r.2);
        assert(!r.0.contains(target));
        assert(r.0.contains(c0));
    }
}

/// A cell outside every octant sweep is not visible.
proof fn lemma_unlit(sc: Scene, kk: int, c: (int, int))
    requires
        0 <= kk <= 8,
        forall|j: int| 0 <= j < kk ==> !(#[trigger] scan(sc, octant(j), 1, (1, 1), (0, 1))).contains(c),
    ensures
        !lit_octants(sc, kk).contains(c),
    decreases kk,
{
    if kk > 0 {
        lemma_unlit(sc, kk - 1, c);
        assert(!scan(sc, octant(kk - 1), 1, (1, 1), (0, 1)).contains(c));
    }
}

/// An opaque cell right above the viewpoint is itself visible (within a
/// radius of at least 2) and hides every cell above it in that column,
/// however far inside the radius.
pub proof fn lemma_wall_hides_column(sc: Scene, k: int)
    requires
        sc.origin.1 >= 1,
        on_grid(sc, (sc.origin.0, sc.origin.1 - 1)),
        !clear(sc, (sc.origin.0, sc.origin.1 - 1)),
        k >= 2,
    ensures
        !visible_cells(sc).contains((sc.origin.0, sc.origin.1 - k)),
        sc.radius >= 2 ==> visible_cells(sc).contains((sc.origin.0, sc.origin.1 - 1)),
{
    let target = (sc.origin.0, sc.origin.1 - k);
    assert forall|j: int| 0 <= j < 8 implies !(#[trigger] scan(sc, octant(j), 1, (1, 1), (0, 1))).contains(
        target,
    ) by {
        let m = octant(j);
        assert(is_octant(m));
        lemma_octant_cell(sc, m, 0, 1);
        lemma_octant_cell(sc, m, 0, k);
        if j == 0 || j == 3 {
            lemma_blocked_column(sc, m, k);
        } else {
            lemma_scan_ahead(sc, m, 1, (1, 1), (0, 1));
            if scan(sc, m, 1, (1, 1), (0, 1)).contains(target) {
                let (dx, y) = choose|dx: int, y: int|
                    y >= 1 && #[trigger] cell_at(sc, m, dx, y) == target && !below(
                        left_edge(dx, y),
                        (0, 1),
                    );
                lemma_octant_cell(sc, m, dx, y);
            }
        }
    }
    lemma_unlit(sc, 8, target);
    lemma_octant_cell(sc, octant(0), 0, 1);
    lemma_blocked_column(sc, octant(0), k);
    lemma_lit_grows(sc, 0, 8);
}

} // verus!
