use vstd::prelude::*;

use crate::map::{lemma_set_then_get, TileMap};
use crate::rectangle::{random_in, Rectangle};

verus! {

/// Each in-bounds cell of `after` either kept its value from `before` or
/// holds what `floor_fn` or `wall_fn` gave for its coordinate.
pub open spec fn only_carved<T, F: Fn((usize, usize)) -> T, W: Fn((usize, usize)) -> T>(
    before: &TileMap<T>,
    after: &TileMap<T>,
    floor_fn: &F,
    wall_fn: &W,
) -> bool {
    forall|q: (usize, usize)|
        #![trigger after.cell(q)]
        after.in_bounds(q) ==> after.cell(q) == before.cell(q) || call_ensures(
            *floor_fn,
            (q,),
            after.cell(q),
        ) || call_ensures(*wall_fn, (q,), after.cell(q))
}

/// `q` lies in `rect`, walls included.
pub open spec fn in_rect(rect: Rectangle, q: (usize, usize)) -> bool {
    rect.ulc.0 <= q.0 <= rect.lrc.0 && rect.ulc.1 <= q.1 <= rect.lrc.1
}

/// `q` lies on the walls of `rect`.
pub open spec fn on_wall(rect: Rectangle, q: (usize, usize)) -> bool {
    in_rect(rect, q) && (q.0 == rect.ulc.0 || q.0 == rect.lrc.0 || q.1 == rect.ulc.1 || q.1
        == rect.lrc.1)
}

/// `rect` lies inside the map with a free column and row beyond its far walls.
pub open spec fn fits<T>(map: &TileMap<T>, rect: Rectangle) -> bool {
    rect.lrc.0 + 1 < map.width && rect.lrc.1 + 1 < map.height
}

/// Fills `rect` (which lies inside the map): walls from `wall_fn`, the body from `floor_fn`.
fn render_room<T, F: Fn((usize, usize)) -> T, W: Fn((usize, usize)) -> T>(
    map: &mut TileMap<T>,
    rect: &Rectangle,
    floor_fn: &F,
    wall_fn: &W,
)
    requires
        old(map).wf(),
        rect.ulc.0 <= rect.lrc.0 && rect.ulc.1 <= rect.lrc.1,
        rect.lrc.0 < old(map).width && rect.lrc.1 < old(map).height,
        forall|p: (usize, usize)| call_requires(*floor_fn, (p,)),
        forall|p: (usize, usize)| call_requires(*wall_fn, (p,)),
    ensures
        final(map).wf(),
        final(map).width == old(map).width,
        final(map).height == old(map).height,
        final(map).name == old(map).name,
        final(map).rooms == old(map).rooms,
        forall|q: (usize, usize)|
            #![trigger final(map).cell(q)]
            final(map).in_bounds(q) ==> if in_rect(*rect, q) {
                if on_wall(*rect, q) {
                    call_ensures(*wall_fn, (q,), final(map).cell(q))
                } else {
                    call_ensures(*floor_fn, (q,), final(map).cell(q))
                }
            } else {
                final(map).cell(q) == old(map).cell(q)
            },
{
    let ghost start = *map;
    let mut y = rect.ulc.1;
    while y <= rect.lrc.1
        invariant
            map.wf(),
            map.width == start.width,
            map.height == start.height,
            map.name == start.name,
            map.rooms == start.rooms,
            rect.ulc.0 <= rect.lrc.0 && rect.ulc.1 <= rect.lrc.1,
            rect.lrc.0 < map.width && rect.lrc.1 < map.height,
            rect.ulc.1 <= y <= rect.lrc.1 + 1,
            forall|p: (usize, usize)| call_requires(*floor_fn, (p,)),
            forall|p: (usize, usize)| call_requires(*wall_fn, (p,)),
            forall|q: (usize, usize)|
                #![trigger map.cell(q)]
                map.in_bounds(q) ==> if in_rect(*rect, q) && q.1 < y {
                    if on_wall(*rect, q) {
                        call_ensures(*wall_fn, (q,), map.cell(q))
                    } else {
                        call_ensures(*floor_fn, (q,), map.cell(q))
                    }
                } else {
                    map.cell(q) == start.cell(q)
                },
        decreases rect.lrc.1 + 1 - y,
    {
        let mut x = rect.ulc.0;
        while x <= rect.lrc.0
            invariant
                map.wf(),
                map.width == start.width,
                map.height == start.height,
                map.name == start.name,
                map.rooms == start.rooms,
                rect.ulc.0 <= rect.lrc.0 && rect.ulc.1 <= rect.lrc.1,
                rect.lrc.0 < map.width && rect.lrc.1 < map.height,
                rect.ulc.1 <= y <= rect.lrc.1,
                rect.ulc.0 <= x <= rect.lrc.0 + 1,
                forall|p: (usize, usize)| call_requires(*floor_fn, (p,)),
                forall|p: (usize, usize)| call_requires(*wall_fn, (p,)),
                forall|q: (usize, usize)|
                    #![trigger map.cell(q)]
                    map.in_bounds(q) ==> if in_rect(*rect, q) && (q.1 < y || (q.1 == y && q.0
                        < x)) {
                        if on_wall(*rect, q) {
                            call_ensures(*wall_fn, (q,), map.cell(q))
                        } else {
                            call_ensures(*floor_fn, (q,), map.cell(q))
                        }
                    } else {
                        map.cell(q) == start.cell(q)
                    },
            decreases rect.lrc.0 + 1 - x,
        {
            let point = (x, y);
            let wall = x == rect.ulc.0 || x == rect.lrc.0 || y == rect.ulc.1 || y == rect.lrc.1;
            let tile = if wall {
                wall_fn(point)
            } else {
                floor_fn(point)
            };
            let ghost before = *map;
            map.set(&point, tile);
            proof {
                lemma_set_then_get(&before, map, point, tile);
            }
            x = x + 1;
        }
        y = y + 1;
    }
}

/// Floors the cells `(x, y)` for `x` from `start_x` to `end_x`, both included
/// (either may be the larger); cells out of bounds are skipped.
fn render_horizontal_tunnel<T, F: Fn((usize, usize)) -> T>(
    map: &mut TileMap<T>,
    start_x: usize,
    end_x: usize,
    y: usize,
    floor_fn: &F,
)
    requires
        old(map).wf(),
        forall|p: (usize, usize)| call_requires(*floor_fn, (p,)),
    ensures
        final(map).wf(),
        final(map).width == old(map).width,
        final(map).height == old(map).height,
        final(map).name == old(map).name,
        final(map).rooms == old(map).rooms,
        forall|q: (usize, usize)|
            #![trigger final(map).cell(q)]
            final(map).in_bounds(q) ==> if q.1 == y && (start_x <= q.0 <= end_x || end_x <= q.0
                <= start_x) {
                call_ensures(*floor_fn, (q,), final(map).cell(q))
            } else {
                final(map).cell(q) == old(map).cell(q)
            },
{
    let lo = if start_x < end_x { start_x } else { end_x };
    let hi = if start_x < end_x { end_x } else { start_x };
    let ghost start = *map;
    let mut x = lo;
    loop
        invariant_except_break
            forall|q: (usize, usize)|
                #![trigger map.cell(q)]
                map.in_bounds(q) ==> if q.1 == y && lo <= q.0 < x {
                    call_ensures(*floor_fn, (q,), map.cell(q))
                } else {
                    map.cell(q) == start.cell(q)
                },
        invariant
            map.wf(),
            map.width == start.width,
            map.height == start.height,
            map.name == start.name,
            map.rooms == start.rooms,
            lo <= x <= hi,
            forall|p: (usize, usize)| call_requires(*floor_fn, (p,)),
        ensures
            map.wf(),
            map.width == start.width,
            map.height == start.height,
            map.name == start.name,
            map.rooms == start.rooms,
            forall|q: (usize, usize)|
                #![trigger map.cell(q)]
                map.in_bounds(q) ==> if q.1 == y && lo <= q.0 <= hi {
                    call_ensures(*floor_fn, (q,), map.cell(q))
                } else {
                    map.cell(q) == start.cell(q)
                },
        decreases hi - x,
    {
        let loc = (x, y);
        let tile = floor_fn(loc);
        let ghost before = *map;
        let written = map.set(&loc, tile);
        proof {
            if written {
                lemma_set_then_get(&before, map, loc, tile);
            } else {
                assert forall|q: (usize, usize)| #[trigger] map.cell(q) == before.cell(q) by {}
            }
        }
        if x == hi {
            break;
        }
        x = x + 1;
    }
}

/// Floors the cells `(x, y)` for `y` from `start_y` to `end_y`, both included
/// (either may be the larger); cells out of bounds are skipped.
fn render_vertical_tunnel<T, F: Fn((usize, usize)) -> T>(
    map: &mut TileMap<T>,
    start_y: usize,
    end_y: usize,
    x: usize,
    floor_fn: &F,
)
    requires
        old(map).wf(),
        forall|p: (usize, usize)| call_requires(*floor_fn, (p,)),
    ensures
        final(map).wf(),
        final(map).width == old(map).width,
        final(map).height == old(map).height,
        final(map).name == old(map).name,
        final(map).rooms == old(map).rooms,
        forall|q: (usize, usize)|
            #![trigger final(map).cell(q)]
            final(map).in_bounds(q) ==> if q.0 == x && (start_y <= q.1 <= end_y || end_y <= q.1
                <= start_y) {
                call_ensures(*floor_fn, (q,), final(map).cell(q))
            } else {
                final(map).cell(q) == old(map).cell(q)
            },
{
    let lo = if start_y < end_y { start_y } else { end_y };
    let hi = if start_y < end_y { end_y } else { start_y };
    let ghost start = *map;
    let mut y = lo;
    loop
        invariant_except_break
            forall|q: (usize, usize)|
                #![trigger map.cell(q)]
                map.in_bounds(q) ==> if q.0 == x && lo <= q.1 < y {
                    call_ensures(*floor_fn, (q,), map.cell(q))
                } else {
                    map.cell(q) == start.cell(q)
                },
        invariant
            map.wf(),
            map.width == start.width,
            map.height == start.height,
            map.name == start.name,
            map.rooms == start.rooms,
            lo <= y <= hi,
            forall|p: (usize, usize)| call_requires(*floor_fn, (p,)),
        ensures
            map.wf(),
            map.width == start.width,
            map.height == start.height,
            map.name == start.name,
            map.rooms == start.rooms,
            forall|q: (usize, usize)|
                #![trigger map.cell(q)]
                map.in_bounds(q) ==> if q.0 == x && lo <= q.1 <= hi {
                    call_ensures(*floor_fn, (q,), map.cell(q))
                } else {
                    map.cell(q) == start.cell(q)
                },
        decreases hi - y,
    {
        let loc = (x, y);
        let tile = floor_fn(loc);
        let ghost before = *map;
        let written = map.set(&loc, tile);
        proof {
            if written {
                lemma_set_then_get(&before, map, loc, tile);
            } else {
                assert forall|q: (usize, usize)| #[trigger] map.cell(q) == before.cell(q) by {}
            }
        }
        if y == hi {
            break;
        }
        y = y + 1;
    }
}

/// Each in-bounds cell of `b` kept its value from `a` or holds what `floor_fn`
/// gave for its coordinate.
pub open spec fn floor_or_same<T, F: Fn((usize, usize)) -> T>(a: &TileMap<T>, b: &TileMap<T>, floor_fn: &F) -> bool {
    forall|q: (usize, usize)|
        #![trigger b.cell(q)]
        b.in_bounds(q) ==> b.cell(q) == a.cell(q) || call_ensures(*floor_fn, (q,), b.cell(q))
}

/// Two tunnels in a row only floor cells.
proof fn lemma_floor_or_same_chain<T, F: Fn((usize, usize)) -> T>(
    a: &TileMap<T>,
    b: &TileMap<T>,
    c: &TileMap<T>,
    floor_fn: &F,
)
    requires
        b.width == a.width && b.height == a.height,
        c.width == b.width && c.height == b.height,
        floor_or_same(a, b, floor_fn),
        floor_or_same(b, c, floor_fn),
    ensures
        floor_or_same(a, c, floor_fn),
{
    assert forall|q: (usize, usize)| #![trigger c.cell(q)] c.in_bounds(q) implies c.cell(q) == a.cell(q)
        || call_ensures(*floor_fn, (q,), c.cell(q)) by {
        assert(b.cell(q) == a.cell(q) || call_ensures(*floor_fn, (q,), b.cell(q)));
    }
}

/// `a` and `b` share a cell, walls included (what `Rectangle::intersect` tests).
pub open spec fn overlaps(a: Rectangle, b: Rectangle) -> bool {
    a.ulc.0 <= b.lrc.0 && a.lrc.0 >= b.ulc.0 && a.ulc.1 <= b.lrc.1 && a.lrc.1 >= b.ulc.1
}

/// A room as the builder places it: its extent on each axis drawn from
/// `[min_size, max_size)`, a free column and row left beyond its far walls.
pub open spec fn placed_room<T>(map: &TileMap<T>, room: Rectangle, min_size: usize, max_size: usize) -> bool {
    &&& room.wf()
    &&& min_size <= room.lrc.0 - room.ulc.0 < max_size
    &&& min_size <= room.lrc.1 - room.ulc.1 < max_size
    &&& fits(map, room)
}

/// No two of the rooms share a cell.
pub open spec fn apart(rooms: Seq<Rectangle>) -> bool {
    forall|i: int, j: int|
        0 <= i < rooms.len() && 0 <= j < rooms.len() && i != j ==> !overlaps(
            #[trigger] rooms[i],
            #[trigger] rooms[j],
        )
}

/// Every cell inside the walls of each room holds what `floor_fn` gave for it.
pub open spec fn floored<T, F: Fn((usize, usize)) -> T>(
    map: &TileMap<T>,
    rooms: Seq<Rectangle>,
    floor_fn: &F,
) -> bool {
    forall|i: int, q: (usize, usize)|
        #![trigger rooms[i], map.cell(q)]
        0 <= i < rooms.len() && in_rect(rooms[i], q) && !on_wall(rooms[i], q) ==> call_ensures(
            *floor_fn,
            (q,),
            map.cell(q),
        )
}

/// Places up to `max_rooms` random rooms that share no cell (at least one
/// when `max_rooms >= 1`: the first never meets another), renders them,
/// joins each to the one placed before it by an L-shaped tunnel whose bend
/// is chosen at random, and records them in the map. Fails, changing nothing,
/// when `min_size < 3` or `max_size` exceeds a dimension of the map.
pub fn carve_rooms<T, F: Fn((usize, usize)) -> T, W: Fn((usize, usize)) -> T>(
    map: &mut TileMap<T>,
    floor_fn: &F,
    wall_fn: &W,
    max_rooms: usize,
    min_size: usize,
    max_size: usize,
) -> (r: Result<(), String>)
    requires
        old(map).wf(),
        forall|p: (usize, usize)| call_requires(*floor_fn, (p,)),
        forall|p: (usize, usize)| call_requires(*wall_fn, (p,)),
        min_size >= 3 && max_size <= old(map).width && max_size <= old(map).height ==> min_size
            < max_size && max_size < old(map).width && max_size < old(map).height,
    ensures
        r is Err <==> (min_size < 3 || max_size > old(map).width || max_size > old(map).height),
        r is Err ==> *final(map) == *old(map),
        r is Ok ==> {
            let placed = final(map).rooms@.subrange(old(map).rooms@.len() as int, final(map).rooms@.len() as int);
            &&& final(map).wf()
            &&& final(map).width == old(map).width
            &&& final(map).height == old(map).height
            &&& final(map).name == old(map).name
            &&& final(map).rooms@.len() >= old(map).rooms@.len()
            &&& final(map).rooms@.subrange(0, old(map).rooms@.len() as int) == old(map).rooms@
            &&& placed.len() <= max_rooms
            &&& max_rooms >= 1 ==> placed.len() >= 1
            &&& forall|i: int| 0 <= i < placed.len() ==> placed_room(old(map), #[trigger] placed[i], min_size, max_size)
            &&& apart(placed)
            &&& floored(final(map), placed, floor_fn)
            &&& only_carved(old(map), final(map), floor_fn, wall_fn)
        },
{
    if min_size < 3 {
        return Err("min_size too small (must be >3".to_string());
    }
    if max_size > map.width || max_size > map.height {
        return Err("max_size too large".to_string());
    }
    let ghost start = *map;
    let mut rooms: Vec<Rectangle> = Vec::new();
    let mut attempt: usize = 0;
    while attempt < max_rooms
        invariant
            map.wf(),
            map.width == start.width && map.height == start.height,
            map.name == start.name && map.rooms == start.rooms,
            3 <= min_size < max_size,
            max_size < map.width && max_size < map.height,
            attempt <= max_rooms,
            rooms@.len() <= attempt,
            attempt > 0 ==> rooms@.len() > 0,
            forall|p: (usize, usize)| call_requires(*floor_fn, (p,)),
            forall|p: (usize, usize)| call_requires(*wall_fn, (p,)),
            forall|i: int| 0 <= i < rooms@.len() ==> placed_room(&start, #[trigger] rooms@[i], min_size, max_size),
            apart(rooms@),
            floored(map, rooms@, floor_fn),
            only_carved(&start, map, floor_fn, wall_fn),
        decreases max_rooms - attempt,
    {
        let width = random_in(min_size, max_size);
        let height = random_in(min_size, max_size);
        let x = random_in(0, map.width - width - 1);
        let y = random_in(0, map.height - height - 1);
        let new_room = Rectangle::new(x, y, width, height).unwrap();
        let mut clear = true;
        let mut j: usize = 0;
        while j < rooms.len()
            invariant
                j <= rooms@.len(),
                clear == forall|i: int| 0 <= i < j ==> !overlaps(new_room, #[trigger] rooms@[i]),
            decreases rooms@.len() - j,
        {
            if new_room.intersect(&rooms[j]) {
                clear = false;
            }
            j = j + 1;
        }
        if clear {
            let ghost before = *map;
            render_room(map, &new_room, floor_fn, wall_fn);
            proof {
                assert forall|i: int, q: (usize, usize)|
                    #![trigger rooms@[i], map.cell(q)]
                    0 <= i < rooms@.len() && in_rect(rooms@[i], q) && !on_wall(rooms@[i], q) implies call_ensures(
                        *floor_fn,
                        (q,),
                        map.cell(q),
                    ) by {
                    assert(!overlaps(new_room, rooms@[i]));
                    assert(before.cell(q) == map.cell(q));
                }
                assert forall|q: (usize, usize)| #![trigger map.cell(q)] map.in_bounds(q) implies (map.cell(q) == start.cell(q)
                    || call_ensures(*floor_fn, (q,), map.cell(q)) || call_ensures(*wall_fn, (q,), map.cell(q))) by {
                    if !in_rect(new_room, q) {
                        assert(before.cell(q) == map.cell(q));
                    }
                }
            }
            rooms.push(new_room);
            proof {
                assert forall|i: int, k: int|
                    0 <= i < rooms@.len() && 0 <= k < rooms@.len() && i != k implies !overlaps(
                    #[trigger] rooms@[i],
                    #[trigger] rooms@[k],
                ) by {
                    if i == rooms@.len() - 1 {
                        assert(!overlaps(new_room, rooms@[k]));
                    } else if k == rooms@.len() - 1 {
                        assert(!overlaps(new_room, rooms@[i]));
                    }
                }
            }
        }
        attempt = attempt + 1;
    }
    let mut i: usize = 1;
    while i < rooms.len()
        invariant
            1 <= i,
            forall|j: int| 0 <= j < rooms@.len() ==> placed_room(&start, #[trigger] rooms@[j], min_size, max_size),
            apart(rooms@),
            rooms@.len() <= max_rooms,
            max_rooms >= 1 ==> rooms@.len() >= 1,
            map.wf(),
            map.width == start.width && map.height == start.height,
            map.name == start.name && map.rooms == start.rooms,
            forall|p: (usize, usize)| call_requires(*floor_fn, (p,)),
            floored(map, rooms@, floor_fn),
            only_carved(&start, map, floor_fn, wall_fn),
        decreases rooms@.len() - i,
    {
        let new_center = rooms[i].center();
        let old_center = rooms[i - 1].center();
        let ghost before = *map;
        if random_in(0, 2) == 1 {
            render_horizontal_tunnel(map, old_center.0, new_center.0, old_center.1, floor_fn);
            let ghost mid = *map;
            render_vertical_tunnel(map, old_center.1, new_center.1, new_center.0, floor_fn);
            proof {
                lemma_floor_or_same_chain(&before, &mid, map, floor_fn);
            }
        } else {
            render_vertical_tunnel(map, old_center.1, new_center.1, old_center.0, floor_fn);
            let ghost mid = *map;
            render_horizontal_tunnel(map, old_center.0, new_center.0, new_center.1, floor_fn);
            proof {
                lemma_floor_or_same_chain(&before, &mid, map, floor_fn);
            }
        }
        proof {
            assert forall|k: int, q: (usize, usize)|
                #![trigger rooms@[k], map.cell(q)]
                0 <= k < rooms@.len() && in_rect(rooms@[k], q) && !on_wall(rooms@[k], q) implies call_ensures(
                    *floor_fn,
                    (q,),
                    map.cell(q),
                ) by {
                assert(placed_room(&start, rooms@[k], min_size, max_size));
                assert(before.cell(q) == map.cell(q) || call_ensures(*floor_fn, (q,), map.cell(q)));
            }
            assert forall|q: (usize, usize)| #![trigger map.cell(q)] map.in_bounds(q) implies (map.cell(q) == start.cell(q)
                || call_ensures(*floor_fn, (q,), map.cell(q)) || call_ensures(*wall_fn, (q,), map.cell(q))) by {
                assert(before.cell(q) == map.cell(q) || call_ensures(*floor_fn, (q,), map.cell(q)));
            }
        }
        i = i + 1;
    }
    let ghost placed = rooms@;
    let ghost cells_now = *map;
    let count = rooms.len();
    let mut k: usize = 0;
    while rooms.len() > 0
        invariant
            map.wf(),
            map.width == start.width && map.height == start.height,
            map.name == start.name,
            map.cells() == cells_now.cells(),
            k + rooms@.len() == placed.len() == count,
            rooms@ == placed.subrange(k as int, placed.len() as int),
            map.rooms@ == start.rooms@ + placed.subrange(0, k as int),
        decreases rooms@.len(),
    {
        let room = rooms.remove(0);
        map.add_room(room);
        proof {
            assert(placed.subrange(0, k + 1) =~= placed.subrange(0, k as int).push(room));
            assert(rooms@ =~= placed.subrange(k + 1, placed.len() as int));
        }
        k = k + 1;
    }
    proof {
        assert(map.rooms@.subrange(start.rooms@.len() as int, map.rooms@.len() as int) =~= placed);
        assert(map.rooms@.subrange(0, start.rooms@.len() as int) =~= start.rooms@);
        assert forall|q: (usize, usize)| #[trigger] map.cell(q) == cells_now.cell(q) by {}
    }
    Ok(())
}

/// Carves rooms and tunnels into a map: floor cells from `floor_fn`, walls from `wall_fn`.
pub struct RoomBuilder<'a, T, F, W> {
    pub map: &'a mut TileMap<T>,
    pub floor_fn: &'a F,
    pub wall_fn: &'a W,
}

impl<'a, T, F: Fn((usize, usize)) -> T, W: Fn((usize, usize)) -> T> RoomBuilder<'a, T, F, W> {
    pub fn new(map: &'a mut TileMap<T>, floor_fn: &'a F, wall_fn: &'a W) -> (r: Self)
        ensures
            *r.map == *old(map),
            r.floor_fn == floor_fn,
            r.wall_fn == wall_fn,
    {
        Self { map, floor_fn, wall_fn }
    }

    /// Places, renders and records up to `max_rooms` rooms joined by tunnels;
    /// see `carve_rooms`.
    pub fn create(&mut self, max_rooms: usize, min_size: usize, max_size: usize) -> (r: Result<
        (),
        String,
    >)
        requires
            old(self).map.wf(),
            forall|p: (usize, usize)| call_requires(*old(self).floor_fn, (p,)),
            forall|p: (usize, usize)| call_requires(*old(self).wall_fn, (p,)),
            min_size >= 3 && max_size <= old(self).map.width && max_size <= old(self).map.height
                ==> min_size < max_size && max_size < old(self).map.width && max_size < old(
                self,
            ).map.height,
        ensures
            r is Err <==> (min_size < 3 || max_size > old(self).map.width || max_size > old(self).map.height),
            r is Err ==> *final(self).map == *old(self).map,
            r is Ok ==> {
                let placed = final(self).map.rooms@.subrange(old(self).map.rooms@.len() as int, final(self).map.rooms@.len() as int);
                &&& final(self).map.wf()
                &&& final(self).map.width == old(self).map.width
                &&& final(self).map.height == old(self).map.height
                &&& final(self).map.name == old(self).map.name
                &&& final(self).map.rooms@.len() >= old(self).map.rooms@.len()
                &&& final(self).map.rooms@.subrange(0, old(self).map.rooms@.len() as int) == old(self).map.rooms@
                &&& placed.len() <= max_rooms
                &&& max_rooms >= 1 ==> placed.len() >= 1
                &&& forall|i: int| 0 <= i < placed.len() ==> placed_room(&*old(self).map, #[trigger] placed[i], min_size, max_size)
                &&& apart(placed)
                &&& floored(&*final(self).map, placed, old(self).floor_fn)
                &&& only_carved(&*old(self).map, &*final(self).map, old(self).floor_fn, old(self).wall_fn)
            },
    {
        carve_rooms(self.map, self.floor_fn, self.wall_fn, max_rooms, min_size, max_size)
    }
}

} // verus!
