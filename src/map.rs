use vstd::arithmetic::div_mod::*;
use vstd::arithmetic::mul::*;
use vstd::prelude::*;

use crate::overlay::Overlay;
use crate::rectangle::{random_in, Rectangle};
use crate::{add_delta, deterministic, lemma_result_of, result_of, shifted};

verus! {

/// `y * width + x < width * height` for a cell inside the grid.
pub proof fn lemma_index_in_range(x: int, y: int, width: int, height: int)
    requires
        0 <= x < width,
        0 <= y < height,
    ensures
        0 <= y * width + x < width * height,
{
    lemma_mul_nonnegative(y, width);
    lemma_mul_inequality(y + 1, height, width);
    lemma_mul_is_distributive_add_other_way(width, y, 1);
    lemma_mul_is_commutative(width, height);
}

/// The offsets of the neighbor enumeration, in their fixed compass order:
/// upper-left, up, upper-right, left, right, lower-left, down, lower-right with
/// diagonals; up, left, right, down without.
pub open spec fn compass(include_diagonals: bool) -> Seq<(int, int)> {
    if include_diagonals {
        seq![(-1, -1), (0, -1), (1, -1), (-1, 0), (1, 0), (-1, 1), (0, 1), (1, 1)]
    } else {
        seq![(0, -1), (-1, 0), (1, 0), (0, 1)]
    }
}

/// A dense grid of `width * height` cells stored row-major: the cell at
/// `(x, y)` sits at index `y * width + x` of `tiles`. Methods expect
/// `tiles.len() == width * height`; they keep it so.
pub struct TileMap<T> {
    pub name: String,
    pub width: usize,
    pub height: usize,
    pub rooms: Vec<Rectangle>,
    pub tiles: Vec<T>,
}

impl<T> TileMap<T> {
    /// The cells in row-major order.
    pub open spec fn cells(&self) -> Seq<T> {
        self.tiles@
    }

    /// Exactly one stored value per coordinate.
    pub open spec fn wf(&self) -> bool {
        self.cells().len() == self.width * self.height
    }

    pub open spec fn in_bounds(&self, loc: (usize, usize)) -> bool {
        loc.0 < self.width && loc.1 < self.height
    }

    pub open spec fn index_of(&self, loc: (usize, usize)) -> int {
        loc.1 * self.width + loc.0
    }

    /// The coordinate of the cell at a row-major index.
    pub open spec fn point_of(&self, index: int) -> (usize, usize) {
        ((index % self.width as int) as usize, (index / self.width as int) as usize)
    }

    /// The value stored at `loc`.
    pub open spec fn cell(&self, loc: (usize, usize)) -> T {
        self.cells()[self.index_of(loc)]
    }

    /// The in-bounds cell at `loc + d`, if there is one.
    pub open spec fn neighbor_at(&self, loc: (usize, usize), d: (int, int)) -> Option<
        (usize, usize),
    > {
        match shifted(loc, d) {
            Some(p) => if self.in_bounds(p) {
                Some(p)
            } else {
                None
            },
            None => None,
        }
    }

    /// The in-bounds cells at `loc + d` for the offsets `ds`, in their order.
    pub open spec fn neighbors_in(&self, loc: (usize, usize), ds: Seq<(int, int)>) -> Seq<
        (usize, usize),
    >
        decreases ds.len(),
    {
        if ds.len() == 0 {
            Seq::empty()
        } else {
            let rest = self.neighbors_in(loc, ds.drop_last());
            match self.neighbor_at(loc, ds.last()) {
                Some(p) => rest.push(p),
                None => rest,
            }
        }
    }

    /// The in-bounds neighbors of `loc`, in compass order.
    pub open spec fn neighbors(&self, loc: (usize, usize), include_diagonals: bool) -> Seq<
        (usize, usize),
    > {
        self.neighbors_in(loc, compass(include_diagonals))
    }

    /// Of the cells `ps`, those whose weight under `weight` is not zero, each with that weight.
    pub open spec fn weighted(&self, ps: Seq<(usize, usize)>, weight: spec_fn(T) -> usize) -> Seq<
        ((usize, usize), usize),
    >
        decreases ps.len(),
    {
        if ps.len() == 0 {
            Seq::empty()
        } else {
            let rest = self.weighted(ps.drop_last(), weight);
            let p = ps.last();
            if weight(self.cell(p)) != 0 {
                rest.push((p, weight(self.cell(p))))
            } else {
                rest
            }
        }
    }

    /// Bit `(dx + 1) + (dy + 1) * 3` for the neighbor `p` at offset
    /// `(dx, dy) = p - loc`: its place in a 3x3 pattern around `loc`.
    pub open spec fn bit_for(loc: (usize, usize), p: (usize, usize)) -> int {
        (p.0 - loc.0 + 1) + (p.1 - loc.1 + 1) * 3
    }

    /// The OR of the bits of those cells of `ps` that pass `test`.
    pub open spec fn pattern(
        &self,
        loc: (usize, usize),
        ps: Seq<(usize, usize)>,
        test: spec_fn(T) -> bool,
    ) -> usize
        decreases ps.len(),
    {
        if ps.len() == 0 {
            0
        } else {
            let rest = self.pattern(loc, ps.drop_last(), test);
            let p = ps.last();
            if test(self.cell(p)) {
                rest | (1usize << (Self::bit_for(loc, p) as usize))
            } else {
                rest
            }
        }
    }

    /// Allocates `width * height` cells, the one at `(x, y)` holding what
    /// `default_fn((x, y))` gave.
    pub fn new<F: Fn((usize, usize)) -> T>(
        name: &str,
        width: usize,
        height: usize,
        default_fn: &F,
    ) -> (r: Self)
        requires
            width * height <= usize::MAX,
            forall|p: (usize, usize)| call_requires(*default_fn, (p,)),
        ensures
            r.wf(),
            r.name@ == name@,
            r.width == width,
            r.height == height,
            r.rooms@.len() == 0,
            forall|x: usize, y: usize|
                x < width && y < height ==> call_ensures(
                    *default_fn,
                    ((x, y),),
                    #[trigger] r.cell((x, y)),
                ),
    {
        let mut cells: Vec<T> = Vec::new();
        let mut y: usize = 0;
        while y < height
            invariant
                forall|p: (usize, usize)| call_requires(*default_fn, (p,)),
                width * height <= usize::MAX,
                y <= height,
                cells@.len() == y * width,
                forall|i: usize, j: usize|
                    i < width && j < y ==> call_ensures(
                        *default_fn,
                        ((i, j),),
                        #[trigger] cells@[j * width + i],
                    ),
            decreases height - y,
        {
            let mut x: usize = 0;
            while x < width
                invariant
                    forall|p: (usize, usize)| call_requires(*default_fn, (p,)),
                    width * height <= usize::MAX,
                    y < height,
                    x <= width,
                    cells@.len() == y * width + x,
                    forall|i: usize, j: usize|
                        (i < width && j < y) || (i < x && j == y) ==> call_ensures(
                            *default_fn,
                            ((i, j),),
                            #[trigger] cells@[j * width + i],
                        ),
                decreases width - x,
            {
                proof {
                    lemma_index_in_range(x as int, y as int, width as int, height as int);
                }
                let ghost before = cells@;
                cells.push(default_fn((x, y)));
                proof {
                    assert forall|i: usize, j: usize|
                        (i < width && j < y) || (i < x + 1 && j == y) implies call_ensures(
                        *default_fn,
                        ((i, j),),
                        #[trigger] cells@[j * width + i],
                    ) by {
                        if j < y {
                            lemma_index_in_range(i as int, j as int, width as int, y as int);
                            lemma_mul_is_commutative(width as int, y as int);
                            assert(cells@[j * width + i] == before[j * width + i]);
                        } else if i < x {
                            assert(cells@[j * width + i] == before[j * width + i]);
                        }
                    }
                }
                x = x + 1;
            }
            proof {
                lemma_mul_is_distributive_add_other_way(width as int, y as int, 1);
            }
            y = y + 1;
        }
        proof {
            lemma_mul_is_commutative(width as int, height as int);
        }
        TileMap { name: name.to_owned(), width, height, rooms: Vec::new(), tiles: cells }
    }

    pub fn add_room(&mut self, rect: Rectangle)
        ensures
            final(self).rooms@ == old(self).rooms@.push(rect),
            final(self).name == old(self).name,
            final(self).width == old(self).width,
            final(self).height == old(self).height,
            final(self).cells() == old(self).cells(),
    {
        self.rooms.push(rect);
    }

    /// The value at `loc`; absent exactly when `loc` is out of bounds.
    pub fn get(&self, loc: &(usize, usize)) -> (r: Option<&T>)
        requires
            self.wf(),
        ensures
            r is Some <==> self.in_bounds(*loc),
            r matches Some(v) ==> *v == self.cell(*loc),
    {
        let n = self.tiles.len();
        if loc.0 < self.width && loc.1 < self.height {
            proof {
                lemma_index_in_range(loc.0 as int, loc.1 as int, self.width as int, self.height as int);
            }
            Some(&self.tiles[loc.1 * self.width + loc.0])
        } else {
            None
        }
    }

    pub fn is_valid_loc(&self, loc: &(usize, usize)) -> (r: bool)
        ensures
            r == self.in_bounds(*loc),
    {
        loc.0 < self.width && loc.1 < self.height
    }

    /// Writes `tile` at `loc` and returns true; out of bounds, changes nothing
    /// and returns false.
    pub fn set(&mut self, loc: &(usize, usize), tile: T) -> (r: bool)
        requires
            old(self).wf(),
        ensures
            final(self).wf(),
            r == old(self).in_bounds(*loc),
            final(self).name == old(self).name,
            final(self).width == old(self).width,
            final(self).height == old(self).height,
            final(self).rooms == old(self).rooms,
            r ==> final(self).cells() == old(self).cells().update(old(self).index_of(*loc), tile),
            !r ==> final(self).cells() == old(self).cells(),
    {
        let n = self.tiles.len();
        if loc.0 < self.width && loc.1 < self.height {
            proof {
                lemma_index_in_range(loc.0 as int, loc.1 as int, self.width as int, self.height as int);
            }
            let i = loc.1 * self.width + loc.0;
            self.tiles.set(i, tile);
            true
        } else {
            false
        }
    }

    /// The coordinate of the cell at a row-major index.
    pub fn point_for(&self, index: usize) -> (r: (usize, usize))
        requires
            self.width > 0,
        ensures
            r == self.point_of(index as int),
    {
        (index % self.width, index / self.width)
    }
}

/// Every neighbor produced from offsets in `[-1, 1]` is in bounds and
/// within one step of `loc` on each axis.
pub proof fn lemma_neighbors_in_props<T>(map: &TileMap<T>, loc: (usize, usize), ds: Seq<(int, int)>)
    requires
        forall|i: int| 0 <= i < ds.len() ==> -1 <= (#[trigger] ds[i]).0 <= 1 && -1 <= ds[i].1 <= 1,
    ensures
        forall|i: int|
            0 <= i < map.neighbors_in(loc, ds).len() ==> {
                let p = #[trigger] map.neighbors_in(loc, ds)[i];
                &&& map.in_bounds(p)
                &&& loc.0 - 1 <= p.0 <= loc.0 + 1
                &&& loc.1 - 1 <= p.1 <= loc.1 + 1
            },
    decreases ds.len(),
{
    if ds.len() > 0 {
        let head = ds.drop_last();
        assert forall|i: int| 0 <= i < head.len() implies -1 <= (#[trigger] head[i]).0 <= 1 && -1
            <= head[i].1 <= 1 by {
            assert(head[i] == ds[i]);
        }
        lemma_neighbors_in_props(map, loc, head);
        let d = ds[ds.len() - 1];
        assert(-1 <= d.0 <= 1 && -1 <= d.1 <= 1);
        let rest = map.neighbors_in(loc, head);
        match map.neighbor_at(loc, d) {
            Some(p) => {
                assert(map.neighbors_in(loc, ds) == rest.push(p));
                assert forall|i: int| 0 <= i < rest.len() + 1 implies ({
                    let q = #[trigger] rest.push(p)[i];
                    &&& map.in_bounds(q)
                    &&& loc.0 - 1 <= q.0 <= loc.0 + 1
                    &&& loc.1 - 1 <= q.1 <= loc.1 + 1
                }) by {
                    if i < rest.len() {
                        assert(rest.push(p)[i] == rest[i]);
                    }
                }
            },
            None => {},
        }
    }
}

impl<T> TileMap<T> {
    /// The in-bounds neighbors of `loc` in compass order; offsets that would
    /// leave the unsigned range are skipped without a lookup.
    pub fn adjacent_locs(&self, loc: &(usize, usize), include_diagonals: bool) -> (r: Vec<
        (usize, usize),
    >)
        ensures
            r@ == self.neighbors(*loc, include_diagonals),
    {
        let deltas: Vec<(isize, isize)> = if include_diagonals {
            vec![(-1, -1), (0, -1), (1, -1), (-1, 0), (1, 0), (-1, 1), (0, 1), (1, 1)]
        } else {
            vec![(0, -1), (-1, 0), (1, 0), (0, 1)]
        };
        let ghost ds = compass(include_diagonals);
        assert(deltas@.len() == ds.len());
        assert(forall|i: int|
            0 <= i < ds.len() ==> ds[i] == ((#[trigger] deltas@[i]).0 as int, deltas@[i].1 as int));
        let mut out: Vec<(usize, usize)> = Vec::new();
        let mut i: usize = 0;
        while i < deltas.len()
            invariant
                i <= deltas@.len() == ds.len(),
                ds == compass(include_diagonals),
                forall|k: int|
                    0 <= k < ds.len() ==> ds[k] == ((#[trigger] deltas@[k]).0 as int, deltas@[k].1 as int),
                out@ == self.neighbors_in(*loc, ds.take(i as int)),
            decreases deltas@.len() - i,
        {
            let d = deltas[i];
            assert(ds.take(i + 1).drop_last() =~= ds.take(i as int));
            assert(ds.take(i + 1).last() == ds[i as int]);
            if let Some(p) = add_delta(loc, &d) {
                if p.0 < self.width && p.1 < self.height {
                    out.push(p);
                }
            }
            i = i + 1;
        }
        assert(ds.take(ds.len() as int) =~= ds);
        out
    }

    /// The in-bounds 8-directional neighbors of `loc` whose weight under
    /// `available` is not zero, in compass order, each with its weight.
    pub fn adjacent_ats<F: Fn(&T) -> usize>(&self, loc: &(usize, usize), available: &F) -> (r: Vec<
        ((usize, usize), usize),
    >)
        requires
            self.wf(),
            deterministic(*available),
        ensures
            r@ == self.weighted(self.neighbors(*loc, true), |t: T| result_of(*available, &t)),
    {
        let ns = self.adjacent_locs(loc, true);
        let ghost wfn = |t: T| result_of(*available, &t);
        proof {
            lemma_neighbors_in_props(self, *loc, compass(true));
        }
        let mut out: Vec<((usize, usize), usize)> = Vec::new();
        let mut k: usize = 0;
        while k < ns.len()
            invariant
                self.wf(),
                deterministic(*available),
                wfn == (|t: T| result_of(*available, &t)),
                ns@ == self.neighbors(*loc, true),
                forall|i: int| 0 <= i < ns@.len() ==> self.in_bounds(#[trigger] ns@[i]),
                k <= ns@.len(),
                out@ == self.weighted(ns@.take(k as int), wfn),
            decreases ns@.len() - k,
        {
            let p = ns[k];
            assert(self.in_bounds(ns@[k as int]));
            let tile = self.get(&p).unwrap();
            let c = available(tile);
            proof {
                lemma_result_of(*available, tile, c);
                assert(ns@.take(k + 1).drop_last() =~= ns@.take(k as int));
                assert(ns@.take(k + 1).last() == p);
            }
            if c != 0 {
                out.push((p, c));
            }
            k = k + 1;
        }
        assert(ns@.take(ns@.len() as int) =~= ns@);
        out
    }

    /// A 3x3 bit pattern of the neighbors of `loc` that pass `test`: the
    /// neighbor at offset `(dx, dy)` sets bit `(dx + 1) + (dy + 1) * 3`. Without
    /// diagonals only the four orthogonal neighbors are looked at.
    pub fn adjacent_paths<F: Fn(&T) -> bool>(
        &self,
        loc: &(usize, usize),
        test: &F,
        include_diagonals: bool,
    ) -> (r: usize)
        requires
            self.wf(),
            deterministic(*test),
        ensures
            r == self.pattern(
                *loc,
                self.neighbors(*loc, include_diagonals),
                |t: T| result_of(*test, &t),
            ),
    {
        let ns = self.adjacent_locs(loc, include_diagonals);
        let ghost tfn = |t: T| result_of(*test, &t);
        proof {
            lemma_neighbors_in_props(self, *loc, compass(include_diagonals));
        }
        let mut result: usize = 0;
        let mut k: usize = 0;
        while k < ns.len()
            invariant
                self.wf(),
                deterministic(*test),
                tfn == (|t: T| result_of(*test, &t)),
                ns@ == self.neighbors(*loc, include_diagonals),
                forall|i: int|
                    0 <= i < ns@.len() ==> {
                        let p = #[trigger] ns@[i];
                        &&& self.in_bounds(p)
                        &&& loc.0 - 1 <= p.0 <= loc.0 + 1
                        &&& loc.1 - 1 <= p.1 <= loc.1 + 1
                    },
                k <= ns@.len(),
                result == self.pattern(*loc, ns@.take(k as int), tfn),
            decreases ns@.len() - k,
        {
            let p = ns[k];
            assert(self.in_bounds(ns@[k as int]));
            let tile = self.get(&p).unwrap();
            let passes = test(tile);
            proof {
                lemma_result_of(*test, tile, passes);
                assert(ns@.take(k + 1).drop_last() =~= ns@.take(k as int));
                assert(ns@.take(k + 1).last() == p);
            }
            if passes {
                let bx: usize = if p.0 > loc.0 {
                    2
                } else if p.0 == loc.0 {
                    1
                } else {
                    0
                };
                let by: usize = if p.1 > loc.1 {
                    2
                } else if p.1 == loc.1 {
                    1
                } else {
                    0
                };
                let bits: usize = 1usize << (bx + by * 3);
                result = result | bits;
            }
            k = k + 1;
        }
        assert(ns@.take(ns@.len() as int) =~= ns@);
        result
    }
}

/// What pathfinding's A* search gives on a grid of cell weights (row-major,
/// zero meaning impassable), 8-directional steps that cost the weight of the
/// cell entered, the Manhattan distance to `end` as heuristic and `end` as goal.
pub uninterp spec fn astar_route(
    weights: Seq<usize>,
    width: nat,
    height: nat,
    start: (usize, usize),
    end: (usize, usize),
) -> Option<(Seq<(usize, usize)>, usize)>;

/// The sum of a sequence of weights.
pub open spec fn weight_total(w: Seq<usize>) -> int
    decreases w.len(),
{
    if w.len() == 0 {
        0
    } else {
        weight_total(w.drop_last()) + w.last()
    }
}

/// `b` is an in-bounds cell of positive weight one king's move away from `a`.
pub open spec fn step_ok(w: Seq<usize>, width: nat, height: nat, a: (usize, usize), b: (
    usize,
    usize,
)) -> bool {
    &&& b.0 < width && b.1 < height
    &&& a != b
    &&& a.0 - 1 <= b.0 <= a.0 + 1
    &&& a.1 - 1 <= b.1 <= a.1 + 1
    &&& w[b.1 * width + b.0] > 0
}

/// The weights of the cells `path` enters after its first.
pub open spec fn path_weight(w: Seq<usize>, width: nat, path: Seq<(usize, usize)>) -> int
    decreases path.len(),
{
    if path.len() <= 1 {
        0
    } else {
        path_weight(w, width, path.drop_last()) + w[path.last().1 * width + path.last().0]
    }
}

/// `path` goes from `start` to `end` by passable steps.
pub open spec fn is_route(
    w: Seq<usize>,
    width: nat,
    height: nat,
    path: Seq<(usize, usize)>,
    start: (usize, usize),
    end: (usize, usize),
) -> bool {
    &&& path.len() >= 1
    &&& path[0] == start
    &&& path.last() == end
    &&& forall|i: int| 0 <= i < path.len() - 1 ==> step_ok(w, width, height, path[i], #[trigger] path[i + 1])
}

/// Some route leads from `start` to `end`.
pub open spec fn reachable(
    w: Seq<usize>,
    width: nat,
    height: nat,
    start: (usize, usize),
    end: (usize, usize),
) -> bool {
    exists|path: Seq<(usize, usize)>| is_route(w, width, height, path, start, end)
}

/// The Manhattan distance between two cells.
pub open spec fn manhattan(p1: (usize, usize), p2: (usize, usize)) -> int {
    (if p1.0 >= p2.0 { p1.0 - p2.0 } else { p2.0 - p1.0 }) + (if p1.1 >= p2.1 { p1.1 - p2.1 } else { p2.1 - p1.1 })
}

impl<T> TileMap<T> {
    /// The weight of every cell under `f`, row-major.
    pub open spec fn weights<F: Fn(&T) -> usize>(&self, f: &F) -> Seq<usize> {
        self.cells().map_values(|t: T| result_of(*f, &t))
    }

    /// The Manhattan distance between two cells.
    fn distance(p1: &(usize, usize), p2: &(usize, usize)) -> (r: usize)
        requires
            manhattan(*p1, *p2) <= usize::MAX,
        ensures
            r == manhattan(*p1, *p2),
    {
        let dx = if p1.0 >= p2.0 { p1.0 - p2.0 } else { p2.0 - p1.0 };
        let dy = if p1.1 >= p2.1 { p1.1 - p2.1 } else { p2.1 - p1.1 };
        dx + dy
    }

    /// Whether the search has reached its goal.
    fn at_goal(p: &(usize, usize), goal: &(usize, usize)) -> (r: bool)
        ensures
            r == (*p == *goal),
    {
        p.0 == goal.0 && p.1 == goal.1
    }

    /// Relies on pathfinding's `astar`: the path it returns runs from `start` to
    /// a node that passes the goal test, each node a successor of the one before,
    /// no node twice; it returns `None` only when it has run out of nodes to
    /// expand, that is when no such path exists. The start node is expanded
    /// first at cost zero, so a start that is the goal comes back alone at cost
    /// zero. A node's recorded cost is its parent's cost when it was reached plus
    /// the step's cost, and recorded costs only fall, so the returned cost is at
    /// least the weight entered along the returned path (not always equal: a
    /// parent may improve after its child was last reached). Its sums of costs stay below `usize::MAX` here: a cost
    /// is at most the total weight, a heuristic value at most
    /// `width + height + end.0 + end.1`.
    #[verifier::external_body]
    fn astar_search<F: Fn(&T) -> usize>(
        &self,
        start: &(usize, usize),
        end: &(usize, usize),
        available: &F,
    ) -> (r: Option<(Vec<(usize, usize)>, usize)>)
        requires
            self.wf(),
            deterministic(*available),
            weight_total(self.weights(available)) + self.width + self.height + end.0 + end.1
                <= usize::MAX,
        ensures
            ({
                let w = self.weights(available);
                match r {
                    Some((path, cost)) => astar_route(w, self.width as nat, self.height as nat, *start, *end)
                        == Some((path@, cost)) && is_route(w, self.width as nat, self.height as nat, path@, *start, *end)
                        && path@.no_duplicates() && cost >= path_weight(w, self.width as nat, path@)
                        && (*start == *end ==> path@ == seq![*start] && cost == 0),
                    None => astar_route(w, self.width as nat, self.height as nat, *start, *end) is None
                        && !reachable(w, self.width as nat, self.height as nat, *start, *end)
                        && *start != *end,
                }
            }),
    {
        pathfinding::prelude::astar(
            start,
            |p| self.adjacent_ats(p, available),
            |p| Self::distance(p, end),
            |p| Self::at_goal(p, end),
        )
    }

    /// An A* route from `start` to `end` over 8-directional steps, each costing
    /// the weight `available` gives the cell entered (zero: impassable), with the
    /// route's accumulated cost (at least the weight entered along it; zero when
    /// `start == end`); `None` exactly when no route exists.
    pub fn shortest_path<F: Fn(&T) -> usize>(
        &self,
        start: &(usize, usize),
        end: &(usize, usize),
        available: &F,
    ) -> (r: Option<(Vec<(usize, usize)>, usize)>)
        requires
            self.wf(),
            deterministic(*available),
            weight_total(self.weights(available)) + self.width + self.height + end.0 + end.1
                <= usize::MAX,
        ensures
            ({
                let w = self.weights(available);
                match r {
                    Some((path, cost)) => astar_route(w, self.width as nat, self.height as nat, *start, *end)
                        == Some((path@, cost)) && is_route(w, self.width as nat, self.height as nat, path@, *start, *end)
                        && path@.no_duplicates() && cost >= path_weight(w, self.width as nat, path@)
                        && (*start == *end ==> path@ == seq![*start] && cost == 0),
                    None => astar_route(w, self.width as nat, self.height as nat, *start, *end) is None
                        && !reachable(w, self.width as nat, self.height as nat, *start, *end)
                        && *start != *end,
                }
            }),
    {
        self.astar_search(start, end, available)
    }

    /// Every cell with its coordinate, in row-major order.
    pub fn iter(&self) -> (r: Vec<((usize, usize), &T)>)
        requires
            self.wf(),
        ensures
            r@.len() == self.cells().len(),
            forall|k: int|
                0 <= k < r@.len() ==> (#[trigger] r@[k]).0 == self.point_of(k) && *r@[k].1
                    == self.cells()[k],
    {
        let mut out: Vec<((usize, usize), &T)> = Vec::new();
        let mut k: usize = 0;
        while k < self.tiles.len()
            invariant
                self.wf(),
                k <= self.tiles@.len(),
                out@.len() == k,
                forall|i: int|
                    0 <= i < k ==> (#[trigger] out@[i]).0 == self.point_of(i) && *out@[i].1
                        == self.cells()[i],
            decreases self.tiles@.len() - k,
        {
            let loc = (k % self.width, k / self.width);
            out.push((loc, &self.tiles[k]));
            k = k + 1;
        }
        out
    }
}

/// `loc` lies strictly inside the walls of `room`.
pub open spec fn in_body(room: Rectangle, loc: (usize, usize)) -> bool {
    room.ulc.0 < loc.0 < room.lrc.0 && room.ulc.1 < loc.1 < room.lrc.1
}

impl<T> TileMap<T> {
    /// A fresh overlay of this map's dimensions, every flag false.
    pub fn create_overlay(&self) -> (r: Overlay)
        requires
            crate::overlay::nonzero_size(self.width, self.height) <= isize::MAX,
        ensures
            r.width() == self.width,
            r.height() == self.height,
            r.default_value() == false,
            forall|q: (usize, usize)| r.in_bounds(q) ==> #[trigger] r.at(q) == false,
    {
        Overlay::new(self.width, self.height, false)
    }

    /// Draws a random room, then up to a hundred random cells inside its walls,
    /// and returns the first for which `available` holds; fails when none does.
    pub fn find_random_tile_loc<F: Fn(&T) -> bool>(&self, available: &F) -> (r: Result<
        (usize, usize),
        (),
    >)
        requires
            self.wf(),
            deterministic(*available),
            self.rooms@.len() > 0,
            forall|i: int|
                0 <= i < self.rooms@.len() ==> {
                    let room = #[trigger] self.rooms@[i];
                    &&& room.wf()
                    &&& room.ulc.0 + 3 <= room.lrc.0
                    &&& room.ulc.1 + 3 <= room.lrc.1
                    &&& room.lrc.0 <= self.width
                    &&& room.lrc.1 <= self.height
                },
        ensures
            r matches Ok(loc) ==> {
                &&& self.in_bounds(loc)
                &&& result_of(*available, &self.cell(loc))
                &&& exists|i: int| 0 <= i < self.rooms@.len() && in_body(#[trigger] self.rooms@[i], loc)
            },
            (forall|i: int, loc: (usize, usize)|
                0 <= i < self.rooms@.len() && #[trigger] in_body(self.rooms@[i], loc) ==> result_of(
                    *available,
                    &self.cell(loc),
                )) ==> r is Ok,
            r is Err ==> exists|i: int, loc: (usize, usize)|
                0 <= i < self.rooms@.len() && #[trigger] in_body(self.rooms@[i], loc) && !result_of(
                    *available,
                    &self.cell(loc),
                ),
    {
        let room_index = random_in(0, self.rooms.len());
        let room = &self.rooms[room_index];
        assert(room == self.rooms@[room_index as int]);
        let mut tries: usize = 0;
        while tries < 100
            invariant
                self.wf(),
                deterministic(*available),
                room_index < self.rooms@.len(),
                *room == self.rooms@[room_index as int],
                room.wf(),
                room.ulc.0 + 3 <= room.lrc.0,
                room.ulc.1 + 3 <= room.lrc.1,
                room.lrc.0 <= self.width,
                room.lrc.1 <= self.height,
                tries > 0 ==> exists|i: int, loc: (usize, usize)|
                    0 <= i < self.rooms@.len() && #[trigger] in_body(self.rooms@[i], loc) && !result_of(
                        *available,
                        &self.cell(loc),
                    ),
            decreases 100 - tries,
        {
            let loc = (room.random_x(false), room.random_y(false));
            let tile = self.get(&loc).unwrap();
            let found = available(tile);
            proof {
                lemma_result_of(*available, tile, found);
            }
            assert(in_body(self.rooms@[room_index as int], loc));
            if found {
                return Ok(loc);
            }
            assert(!result_of(*available, &self.cell(loc)));
            tries = tries + 1;
        }
        Err(())
    }
}

/// Reading `s` line by line: the lines completed by a `'\n'` and the
/// characters of the line still open.
pub open spec fn scan_lines(s: Seq<char>) -> (Seq<Seq<char>>, Seq<char>)
    decreases s.len(),
{
    if s.len() == 0 {
        (Seq::empty(), Seq::empty())
    } else {
        let (done, cur) = scan_lines(s.drop_last());
        if s.last() == '\n' {
            (done.push(cur), Seq::empty())
        } else {
            (done, cur.push(s.last()))
        }
    }
}

/// The lines of `s`, each `'\n'` ending one; a final line without a
/// terminator counts when it is not empty.
pub open spec fn split_lines(s: Seq<char>) -> Seq<Seq<char>> {
    let (done, cur) = scan_lines(s);
    if cur.len() > 0 {
        done.push(cur)
    } else {
        done
    }
}

/// The lines one after another.
pub open spec fn joined(lines: Seq<Seq<char>>) -> Seq<char>
    decreases lines.len(),
{
    if lines.len() == 0 {
        Seq::empty()
    } else {
        joined(lines.drop_last()) + lines.last()
    }
}

/// Every line has `w` characters.
pub open spec fn all_width(lines: Seq<Seq<char>>, w: int) -> bool {
    forall|j: int| 0 <= j < lines.len() ==> (#[trigger] lines[j]).len() == w
}

/// Adding a line keeps all lines of width `w` exactly when it has that width.
pub proof fn lemma_all_width_push(lines: Seq<Seq<char>>, line: Seq<char>, w: int)
    ensures
        all_width(lines.push(line), w) == (all_width(lines, w) && line.len() == w),
{
    let more = lines.push(line);
    assert(more[lines.len() as int] == line);
    if all_width(more, w) {
        assert forall|j: int| 0 <= j < lines.len() implies (#[trigger] lines[j]).len() == w by {
            assert(more[j] == lines[j]);
        }
    }
    if all_width(lines, w) && line.len() == w {
        assert forall|j: int| 0 <= j < more.len() implies (#[trigger] more[j]).len() == w by {
            if j < lines.len() {
                assert(more[j] == lines[j]);
            }
        }
    }
}

/// Lines of one width, joined, put line `y` at `y * w`.
pub proof fn lemma_joined_index(lines: Seq<Seq<char>>, w: int)
    requires
        w >= 0,
        all_width(lines, w),
    ensures
        joined(lines).len() == lines.len() * w,
        forall|x: int, y: int|
            0 <= x < w && 0 <= y < lines.len() ==> #[trigger] joined(lines)[y * w + x] == lines[y][x],
    decreases lines.len(),
{
    if lines.len() > 0 {
        let head = lines.drop_last();
        assert(all_width(head, w)) by {
            assert forall|j: int| 0 <= j < head.len() implies (#[trigger] head[j]).len() == w by {
                assert(head[j] == lines[j]);
            }
        }
        lemma_joined_index(head, w);
        let n = head.len() as int;
        lemma_mul_is_distributive_add_other_way(w, n, 1);
        assert forall|x: int, y: int|
            0 <= x < w && 0 <= y < lines.len() implies #[trigger] joined(lines)[y * w + x]
            == lines[y][x] by {
            if y < n {
                lemma_index_in_range(x, y, w, n);
                lemma_mul_is_commutative(w, n);
                assert(head[y] == lines[y]);
            } else {
                assert(y * w == n * w);
            }
        }
    }
}

/// The characters of `s`, in order.
fn chars_of(s: &str) -> (r: Vec<char>)
    ensures
        r@ == s@,
{
    let mut out: Vec<char> = Vec::new();
    for c in it: s.chars()
        invariant
            out@ == it.seq().take(it.index() as int),
    {
        out.push(c);
    }
    out
}

/// Builds a map of characters from text: line `y` of the text is row `y`,
/// each character a cell. Fails when there is no line or the lines differ in
/// length.
pub fn generate_ascii_map(name: &str, ascii_map: &str) -> (r: Result<TileMap<char>, ()>)
    ensures
        ({
            let lines = split_lines(ascii_map@);
            match r {
                Ok(m) => {
                    &&& lines.len() > 0
                    &&& all_width(lines, lines[0].len() as int)
                    &&& m.wf()
                    &&& m.name@ == name@
                    &&& m.width == lines[0].len()
                    &&& m.height == lines.len()
                    &&& m.rooms@.len() == 0
                    &&& forall|x: usize, y: usize|
                        x < m.width && y < m.height ==> #[trigger] m.cell((x, y)) == lines[y as int][x as int]
                },
                Err(_) => lines.len() == 0 || !all_width(lines, lines[0].len() as int),
            }
        }),
{
    let chars = chars_of(ascii_map);
    let mut tiles: Vec<char> = Vec::new();
    let mut width: usize = 0;
    let mut height: usize = 0;
    let mut cur_len: usize = 0;
    let mut ragged = false;
    let mut i: usize = 0;
    while i < chars.len()
        invariant
            i <= chars@.len(),
            chars@ == ascii_map@,
            height + cur_len <= i,
            ({
                let (done, cur) = scan_lines(chars@.take(i as int));
                &&& height == done.len()
                &&& cur_len == cur.len()
                &&& tiles@ == joined(done) + cur
                &&& height > 0 ==> width == done[0].len()
                &&& ragged == !all_width(done, width as int)
            }),
        decreases chars@.len() - i,
    {
        let c = chars[i];
        let ghost prev = scan_lines(chars@.take(i as int));
        assert(chars@.take(i + 1).drop_last() =~= chars@.take(i as int));
        if c == '\n' {
            if height == 0 {
                width = cur_len;
            } else if cur_len != width {
                ragged = true;
            }
            height = height + 1;
            cur_len = 0;
            proof {
                let done2 = prev.0.push(prev.1);
                assert(done2[0] == if prev.0.len() == 0 { prev.1 } else { prev.0[0] });
                lemma_all_width_push(prev.0, prev.1, width as int);
                assert(joined(done2) == joined(prev.0) + prev.1) by {
                    assert(done2.drop_last() =~= prev.0);
                }
                assert(tiles@ == joined(done2) + Seq::<char>::empty());
            }
        } else {
            tiles.push(c);
            cur_len = cur_len + 1;
            proof {
                assert(tiles@ =~= joined(prev.0) + prev.1.push(c));
            }
        }
        i = i + 1;
    }
    assert(chars@.take(chars@.len() as int) =~= chars@);
    let ghost fin = scan_lines(chars@);
    if cur_len > 0 {
        if height == 0 {
            width = cur_len;
        } else if cur_len != width {
            ragged = true;
        }
        height = height + 1;
        proof {
            let done2 = fin.0.push(fin.1);
            assert(done2[0] == if fin.0.len() == 0 { fin.1 } else { fin.0[0] });
            lemma_all_width_push(fin.0, fin.1, width as int);
            assert(joined(done2) == joined(fin.0) + fin.1) by {
                assert(done2.drop_last() =~= fin.0);
            }
        }
    } else {
        assert(fin.1 =~= Seq::<char>::empty());
        assert(tiles@ =~= joined(fin.0));
    }
    let ghost lines = split_lines(ascii_map@);
    if height == 0 || ragged {
        return Err(());
    }
    proof {
        lemma_joined_index(lines, width as int);
        lemma_mul_is_commutative(width as int, height as int);
    }
    Ok(TileMap { name: name.to_owned(), width, height, rooms: Vec::new(), tiles })
}

/// Two different cells in bounds sit at different indices.
pub proof fn lemma_index_injective(a: (usize, usize), b: (usize, usize), width: int)
    requires
        a.0 < width,
        b.0 < width,
        a != b,
    ensures
        a.1 * width + a.0 != b.1 * width + b.0,
{
    if a.1 * width + a.0 == b.1 * width + b.0 {
        lemma_fundamental_div_mod_converse(a.1 * width + a.0, width, a.1 as int, a.0 as int);
        lemma_fundamental_div_mod_converse(b.1 * width + b.0, width, b.1 as int, b.0 as int);
    }
}

/// After `set` writes `v` at an in-bounds `c`, reading `c` gives `v` and every
/// other cell reads as before.
pub proof fn lemma_set_then_get<T>(before: &TileMap<T>, after: &TileMap<T>, c: (usize, usize), v: T)
    requires
        before.wf(),
        before.in_bounds(c),
        after.width == before.width,
        after.height == before.height,
        after.cells() == before.cells().update(before.index_of(c), v),
    ensures
        after.wf(),
        after.cell(c) == v,
        forall|q: (usize, usize)|
            before.in_bounds(q) && q != c ==> #[trigger] after.cell(q) == before.cell(q),
{
    lemma_index_in_range(c.0 as int, c.1 as int, before.width as int, before.height as int);
    assert forall|q: (usize, usize)| before.in_bounds(q) && q != c implies #[trigger] after.cell(q)
        == before.cell(q) by {
        lemma_index_in_range(q.0 as int, q.1 as int, before.width as int, before.height as int);
        lemma_index_injective(q, c, before.width as int);
    }
}

/// Every cell of a route lies in a region that holds its start and that no
/// passable step leaves.
proof fn lemma_route_stays(
    w: Seq<usize>,
    width: nat,
    height: nat,
    path: Seq<(usize, usize)>,
    region: Set<(usize, usize)>,
    i: int,
)
    requires
        path.len() >= 1,
        region.contains(path[0]),
        forall|k: int| 0 <= k < path.len() - 1 ==> step_ok(w, width, height, path[k], #[trigger] path[k + 1]),
        forall|a: (usize, usize), b: (usize, usize)|
            region.contains(a) && #[trigger] step_ok(w, width, height, a, b) ==> region.contains(b),
        0 <= i < path.len(),
    ensures
        region.contains(path[i]),
    decreases i,
{
    if i > 0 {
        lemma_route_stays(w, width, height, path, region, i - 1);
        assert(step_ok(w, width, height, path[i - 1], path[(i - 1) + 1]));
    }
}

/// A region of cells that holds `start` but not `end`, and that no passable
/// step leaves (every cell on its border weighs zero), cuts every route from
/// `start` to `end`.
pub proof fn lemma_partition_blocks_route(
    w: Seq<usize>,
    width: nat,
    height: nat,
    start: (usize, usize),
    end: (usize, usize),
    region: Set<(usize, usize)>,
)
    requires
        region.contains(start),
        !region.contains(end),
        forall|a: (usize, usize), b: (usize, usize)|
            region.contains(a) && #[trigger] step_ok(w, width, height, a, b) ==> region.contains(b),
    ensures
        !reachable(w, width, height, start, end),
{
    if reachable(w, width, height, start, end) {
        let path = choose|path: Seq<(usize, usize)>| is_route(w, width, height, path, start, end);
        lemma_route_stays(w, width, height, path, region, path.len() - 1);
    }
}

/// One more offset adds its in-bounds cell, if any, at the end.
pub proof fn lemma_neighbors_push<T>(map: &TileMap<T>, loc: (usize, usize), ds: Seq<(int, int)>, d: (
    int,
    int,
))
    ensures
        map.neighbors_in(loc, ds.push(d)) == (match map.neighbor_at(loc, d) {
            Some(p) => map.neighbors_in(loc, ds).push(p),
            None => map.neighbors_in(loc, ds),
        }),
{
    assert(ds.push(d).drop_last() =~= ds);
}

/// One more cell adds its bit to the pattern when it passes the test.
pub proof fn lemma_pattern_push<T>(
    map: &TileMap<T>,
    loc: (usize, usize),
    ps: Seq<(usize, usize)>,
    p: (usize, usize),
    test: spec_fn(T) -> bool,
)
    ensures
        map.pattern(loc, ps.push(p), test) == if test(map.cell(p)) {
            map.pattern(loc, ps, test) | (1usize << (TileMap::<T>::bit_for(loc, p) as usize))
        } else {
            map.pattern(loc, ps, test)
        },
{
    assert(ps.push(p).drop_last() =~= ps);
}

/// The compass offsets built up one at a time.
proof fn lemma_compass_pushes()
    ensures
        compass(true) == Seq::<(int, int)>::empty().push((-1, -1)).push((0, -1)).push((1, -1)).push(
            (-1, 0),
        ).push((1, 0)).push((-1, 1)).push((0, 1)).push((1, 1)),
        compass(false) == Seq::<(int, int)>::empty().push((0, -1)).push((-1, 0)).push((1, 0)).push(
            (0, 1),
        ),
{
    assert(compass(true) =~= Seq::<(int, int)>::empty().push((-1, -1)).push((0, -1)).push(
        (1, -1),
    ).push((-1, 0)).push((1, 0)).push((-1, 1)).push((0, 1)).push((1, 1)));
    assert(compass(false) =~= Seq::<(int, int)>::empty().push((0, -1)).push((-1, 0)).push(
        (1, 0),
    ).push((0, 1)));
}

/// With diagonals, a cell of a grid at least 2x2 has 3 neighbors at a corner,
/// 5 on an edge and 8 inside; they come in compass order by `neighbors`' definition.
pub proof fn lemma_neighbor_count<T>(map: &TileMap<T>, loc: (usize, usize))
    requires
        map.width >= 2,
        map.height >= 2,
        map.in_bounds(loc),
    ensures
        ({
            let n = map.neighbors(loc, true).len();
            let edge_x = loc.0 == 0 || loc.0 + 1 == map.width;
            let edge_y = loc.1 == 0 || loc.1 + 1 == map.height;
            &&& edge_x && edge_y ==> n == 3
            &&& edge_x != edge_y ==> n == 5
            &&& !edge_x && !edge_y ==> n == 8
        }),
{
    lemma_compass_pushes();
    let e = Seq::<(int, int)>::empty();
    let s1 = e.push((-1, -1));
    let s2 = s1.push((0, -1));
    let s3 = s2.push((1, -1));
    let s4 = s3.push((-1, 0));
    let s5 = s4.push((1, 0));
    let s6 = s5.push((-1, 1));
    let s7 = s6.push((0, 1));
    lemma_neighbors_push(map, loc, e, (-1, -1));
    lemma_neighbors_push(map, loc, s1, (0, -1));
    lemma_neighbors_push(map, loc, s2, (1, -1));
    lemma_neighbors_push(map, loc, s3, (-1, 0));
    lemma_neighbors_push(map, loc, s4, (1, 0));
    lemma_neighbors_push(map, loc, s5, (-1, 1));
    lemma_neighbors_push(map, loc, s6, (0, 1));
    lemma_neighbors_push(map, loc, s7, (1, 1));
    assert(map.neighbors_in(loc, e).len() == 0);
}

/// A cell whose eight neighbors all pass the test gets every bit but the
/// center: `0b111_101_111`.
pub proof fn lemma_enclosed_pattern<T>(map: &TileMap<T>, loc: (usize, usize), test: spec_fn(T) -> bool)
    requires
        1 <= loc.0 && loc.0 + 1 < map.width,
        1 <= loc.1 && loc.1 + 1 < map.height,
        forall|q: (usize, usize)|
            q != loc && loc.0 - 1 <= q.0 <= loc.0 + 1 && loc.1 - 1 <= q.1 <= loc.1 + 1 ==> test(
                #[trigger] map.cell(q),
            ),
    ensures
        map.pattern(loc, map.neighbors(loc, true), test) == 0b111_101_111,
{
    lemma_compass_pushes();
    let e = Seq::<(int, int)>::empty();
    let s1 = e.push((-1, -1));
    let s2 = s1.push((0, -1));
    let s3 = s2.push((1, -1));
    let s4 = s3.push((-1, 0));
    let s5 = s4.push((1, 0));
    let s6 = s5.push((-1, 1));
    let s7 = s6.push((0, 1));
    lemma_neighbors_push(map, loc, e, (-1, -1));
    lemma_neighbors_push(map, loc, s1, (0, -1));
    lemma_neighbors_push(map, loc, s2, (1, -1));
    lemma_neighbors_push(map, loc, s3, (-1, 0));
    lemma_neighbors_push(map, loc, s4, (1, 0));
    lemma_neighbors_push(map, loc, s5, (-1, 1));
    lemma_neighbors_push(map, loc, s6, (0, 1));
    lemma_neighbors_push(map, loc, s7, (1, 1));
    let (x, y) = loc;
    let p0 = ((x - 1) as usize, (y - 1) as usize);
    let p1 = (x, (y - 1) as usize);
    let p2 = ((x + 1) as usize, (y - 1) as usize);
    let p3 = ((x - 1) as usize, y);
    let p4 = ((x + 1) as usize, y);
    let p5 = ((x - 1) as usize, (y + 1) as usize);
    let p6 = (x, (y + 1) as usize);
    let p7 = ((x + 1) as usize, (y + 1) as usize);
    let n = Seq::<(usize, usize)>::empty();
    assert(map.neighbors_in(loc, e) == n);
    assert(map.neighbors(loc, true) == n.push(p0).push(p1).push(p2).push(p3).push(p4).push(p5).push(
        p6,
    ).push(p7));
    assert(test(map.cell(p0)) && test(map.cell(p1)) && test(map.cell(p2)) && test(map.cell(p3)));
    assert(test(map.cell(p4)) && test(map.cell(p5)) && test(map.cell(p6)) && test(map.cell(p7)));
    let q1 = n.push(p0);
    let q2 = q1.push(p1);
    let q3 = q2.push(p2);
    let q4 = q3.push(p3);
    let q5 = q4.push(p4);
    let q6 = q5.push(p5);
    let q7 = q6.push(p6);
    lemma_pattern_push(map, loc, n, p0, test);
    lemma_pattern_push(map, loc, q1, p1, test);
    lemma_pattern_push(map, loc, q2, p2, test);
    lemma_pattern_push(map, loc, q3, p3, test);
    lemma_pattern_push(map, loc, q4, p4, test);
    lemma_pattern_push(map, loc, q5, p5, test);
    lemma_pattern_push(map, loc, q6, p6, test);
    lemma_pattern_push(map, loc, q7, p7, test);
    assert(map.pattern(loc, n, test) == 0);
    assert(TileMap::<T>::bit_for(loc, p0) == 0 && TileMap::<T>::bit_for(loc, p1) == 1);
    assert(TileMap::<T>::bit_for(loc, p2) == 2 && TileMap::<T>::bit_for(loc, p3) == 3);
    assert(TileMap::<T>::bit_for(loc, p4) == 5 && TileMap::<T>::bit_for(loc, p5) == 6);
    assert(TileMap::<T>::bit_for(loc, p6) == 7 && TileMap::<T>::bit_for(loc, p7) == 8);
    assert((((((((0usize | (1usize << 0usize)) | (1usize << 1usize)) | (1usize << 2usize)) | (1usize
        << 3usize)) | (1usize << 5usize)) | (1usize << 6usize)) | (1usize << 7usize)) | (1usize
        << 8usize) == 0b111_101_111usize) by (bit_vector);
}

/// Without diagonals only the four orthogonal bits can be set: the diagonal
/// and center bits, `0b101_010_101`, stay clear.
pub proof fn lemma_orthogonal_pattern<T>(map: &TileMap<T>, loc: (usize, usize), test: spec_fn(T) -> bool)
    ensures
        map.pattern(loc, map.neighbors(loc, false), test) & 0b101_010_101 == 0,
{
    lemma_compass_pushes();
    let e = Seq::<(int, int)>::empty();
    let s1 = e.push((0, -1));
    let s2 = s1.push((-1, 0));
    let s3 = s2.push((1, 0));
    assert(map.neighbors_in(loc, e) == Seq::<(usize, usize)>::empty());
    assert(map.pattern(loc, Seq::<(usize, usize)>::empty(), test) == 0);
    assert(0usize & 0x155 == 0) by (bit_vector);
    lemma_orthogonal_step(map, loc, e, (0, -1), test);
    lemma_orthogonal_step(map, loc, s1, (-1, 0), test);
    lemma_orthogonal_step(map, loc, s2, (1, 0), test);
    lemma_orthogonal_step(map, loc, s3, (0, 1), test);
}

/// An orthogonal offset adds one of the bits `0b010_101_010`, if any.
proof fn lemma_orthogonal_step<T>(
    map: &TileMap<T>,
    loc: (usize, usize),
    ds: Seq<(int, int)>,
    d: (int, int),
    test: spec_fn(T) -> bool,
)
    requires
        d == (0int, -1int) || d == (-1int, 0int) || d == (1int, 0int) || d == (0int, 1int),
        map.pattern(loc, map.neighbors_in(loc, ds), test) & 0x155 == 0,
    ensures
        map.pattern(loc, map.neighbors_in(loc, ds.push(d)), test) & 0x155 == 0,
{
    assert(forall|r: usize, b: usize|
        r & 0x155 == 0 && (b == 2 || b == 8 || b == 32 || b == 128) ==> #[trigger] (r | b) & 0x155
            == 0) by (bit_vector);
    assert((1usize << 1usize) == 2 && (1usize << 3usize) == 8 && (1usize << 5usize) == 32 && (1usize
        << 7usize) == 128) by (bit_vector);
    lemma_neighbors_push(map, loc, ds, d);
    match map.neighbor_at(loc, d) {
        Some(p) => {
            lemma_pattern_push(map, loc, map.neighbors_in(loc, ds), p, test);
            let b = TileMap::<T>::bit_for(loc, p);
            assert(b == 1 || b == 3 || b == 5 || b == 7);
        },
        None => {},
    }
}

/// `corridor` is a chain of distinct cells in which the only passable steps
/// from each cell lead to the cells just before and just after it.
pub open spec fn is_corridor(w: Seq<usize>, width: nat, height: nat, corridor: Seq<(usize, usize)>) -> bool {
    &&& corridor.len() >= 1
    &&& corridor.no_duplicates()
    &&& forall|i: int, b: (usize, usize)|
        0 <= i < corridor.len() && #[trigger] step_ok(w, width, height, corridor[i], b) ==> (i > 0
            && b == corridor[i - 1]) || (i + 1 < corridor.len() && b == corridor[i + 1])
}

/// The first `k + 1` cells of a route that repeats no cell follow the corridor it starts in.
proof fn lemma_route_follows(
    w: Seq<usize>,
    width: nat,
    height: nat,
    corridor: Seq<(usize, usize)>,
    path: Seq<(usize, usize)>,
    k: int,
)
    requires
        is_corridor(w, width, height, corridor),
        path.len() >= 1,
        path[0] == corridor[0],
        path.no_duplicates(),
        forall|i: int| 0 <= i < path.len() - 1 ==> step_ok(w, width, height, path[i], #[trigger] path[i + 1]),
        0 <= k < path.len(),
    ensures
        k < corridor.len(),
        forall|j: int| 0 <= j <= k ==> #[trigger] path[j] == corridor[j],
    decreases k,
{
    if k > 0 {
        lemma_route_follows(w, width, height, corridor, path, k - 1);
        assert(step_ok(w, width, height, path[k - 1], path[(k - 1) + 1]));
        assert(step_ok(w, width, height, corridor[k - 1], path[k]));
        if k >= 2 && path[k] == corridor[k - 2] {
            assert(path[k] == path[k - 2]);
        }
    }
}

/// A route that repeats no cell, from one end of a corridor to the other, is
/// the corridor itself: its number of steps is the corridor's.
pub proof fn lemma_corridor_route(
    w: Seq<usize>,
    width: nat,
    height: nat,
    corridor: Seq<(usize, usize)>,
    path: Seq<(usize, usize)>,
)
    requires
        is_corridor(w, width, height, corridor),
        is_route(w, width, height, path, corridor[0], corridor.last()),
        path.no_duplicates(),
    ensures
        path == corridor,
{
    lemma_route_follows(w, width, height, corridor, path, path.len() - 1);
    let n = path.len();
    assert(path[n - 1] == corridor[n - 1]);
    assert(corridor[n - 1] == corridor[corridor.len() - 1]);
    assert(n == corridor.len());
    assert(path =~= corridor);
}

} // verus!
