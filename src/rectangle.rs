use vstd::arithmetic::div_mod::*;
use vstd::arithmetic::mul::*;
use rand::Rng;
use vstd::prelude::*;

verus! {

/// Relies on rand's `Rng::gen_range` (on the thread-local generator): a value
/// in `[low, high)`; it panics when `low >= high`.
#[verifier::external_body]
pub(crate) fn random_in(low: usize, high: usize) -> (r: usize)
    requires
        low < high,
    ensures
        low <= r < high,
{
    rand::thread_rng().gen_range(low, high)
}

/// Rectangle with a single width border: the corners `ulc` and `lrc` both lie
/// on it, so it spans `lrc.0 - ulc.0 + 1` columns and `lrc.1 - ulc.1 + 1` rows.
pub struct Rectangle {
    pub ulc: (usize, usize),
    pub lrc: (usize, usize),
}

/// Whether a cell lies on the border or in the body of a rectangle.
#[derive(Debug, PartialEq, Eq, Structural, Clone, Copy)]
pub enum RectangleIteratorType {
    BORDER,
    BODY,
}

impl Rectangle {
    /// A rectangle as `new` builds it: at least two cells between the corners on each axis.
    pub open spec fn wf(&self) -> bool {
        self.ulc.0 + 2 <= self.lrc.0 && self.ulc.1 + 2 <= self.lrc.1
    }

    /// Number of columns covered, walls included.
    pub open spec fn cols(&self) -> int {
        self.lrc.0 - self.ulc.0 + 1
    }

    /// Number of rows covered, walls included.
    pub open spec fn rows(&self) -> int {
        self.lrc.1 - self.ulc.1 + 1
    }

    /// The `k`-th cell in row-major order and whether it is on the border.
    pub open spec fn point_at(&self, k: int) -> ((usize, usize), RectangleIteratorType) {
        let x = self.ulc.0 + k % self.cols();
        let y = self.ulc.1 + k / self.cols();
        ((x as usize, y as usize), if x == self.ulc.0 || x == self.lrc.0 || y == self.ulc.1
            || y == self.lrc.1 {
            RectangleIteratorType::BORDER
        } else {
            RectangleIteratorType::BODY
        })
    }

    /// A rectangle at `(x, y)` reaching `width` and `height` further; both must be at least 2.
    pub fn new(x: usize, y: usize, width: usize, height: usize) -> (r: Result<Self, String>)
        requires
            x + width <= usize::MAX,
            y + height <= usize::MAX,
        ensures
            (width < 2 || height < 2) <==> r is Err,
            r matches Ok(rect) ==> rect.ulc == (x, y) && rect.lrc == ((x + width) as usize, (y
                + height) as usize) && rect.wf(),
    {
        if width < 2 || height < 2 {
            return Err("Rectangle dimensions too small".to_string());
        }
        Ok(Rectangle { ulc: (x, y), lrc: (x + width, y + height) })
    }

    /// The middle cell, rounded down on each axis.
    pub fn center(&self) -> (r: (usize, usize))
        ensures
            r.0 == (self.ulc.0 + self.lrc.0) / 2,
            r.1 == (self.ulc.1 + self.lrc.1) / 2,
    {
        (
            self.ulc.0 / 2 + self.lrc.0 / 2 + (self.ulc.0 % 2 + self.lrc.0 % 2) / 2,
            self.ulc.1 / 2 + self.lrc.1 / 2 + (self.ulc.1 % 2 + self.lrc.1 % 2) / 2,
        )
    }

    /// Whether the two rectangles share at least one cell (walls included).
    pub fn intersect(&self, other: &Rectangle) -> (r: bool)
        ensures
            r == (self.ulc.0 <= other.lrc.0 && self.lrc.0 >= other.ulc.0 && self.ulc.1
                <= other.lrc.1 && self.lrc.1 >= other.ulc.1),
    {
        self.ulc.0 <= other.lrc.0 && self.lrc.0 >= other.ulc.0 && self.ulc.1 <= other.lrc.1
            && self.lrc.1 >= other.ulc.1
    }

    /// Every cell of the rectangle in row-major order, each marked border or body.
    pub fn iter(&self) -> (r: Vec<((usize, usize), RectangleIteratorType)>)
        requires
            self.ulc.0 <= self.lrc.0 < usize::MAX,
            self.ulc.1 <= self.lrc.1 < usize::MAX,
        ensures
            r@.len() == self.cols() * self.rows(),
            forall|k: int| 0 <= k < r@.len() ==> #[trigger] r@[k] == self.point_at(k),
    {
        let mut it = RectangleIterator::new(self);
        let mut out: Vec<((usize, usize), RectangleIteratorType)> = Vec::new();
        proof {
            lemma_mul_is_commutative(self.cols(), self.rows());
        }
        loop
            invariant
                it.wf(),
                it.covers(self),
                it.total() == self.cols() * self.rows(),
                out@.len() == it.produced(),
                forall|k: int| 0 <= k < out@.len() ==> #[trigger] out@[k] == self.point_at(k),
            ensures
                out@.len() == self.cols() * self.rows(),
            decreases it.total() - it.produced(),
        {
            match it.next() {
                Some(item) => {
                    out.push(item);
                },
                None => {
                    break;
                },
            }
        }
        out
    }

    /// A random column of the rectangle: any of its columns but the right edge
    /// with `include_wall`, else one strictly between its left and right walls.
    pub fn random_x(&self, include_wall: bool) -> (r: usize)
        requires
            self.wf(),
            include_wall || self.ulc.0 + 3 <= self.lrc.0,
        ensures
            include_wall ==> self.ulc.0 <= r < self.lrc.0,
            !include_wall ==> self.ulc.0 < r < self.lrc.0 - 1,
    {
        let (start, end) = if include_wall {
            (0, self.lrc.0 - self.ulc.0)
        } else {
            (1, self.lrc.0 - self.ulc.0 - 1)
        };
        self.ulc.0 + random_in(start, end)
    }

    /// A random row of the rectangle: any of its rows but the bottom edge with
    /// `include_wall`, else one strictly between its top and bottom walls.
    pub fn random_y(&self, include_wall: bool) -> (r: usize)
        requires
            self.wf(),
            include_wall || self.ulc.1 + 3 <= self.lrc.1,
        ensures
            include_wall ==> self.ulc.1 <= r < self.lrc.1,
            !include_wall ==> self.ulc.1 < r < self.lrc.1 - 1,
    {
        let (start, end) = if include_wall {
            (0, self.lrc.1 - self.ulc.1)
        } else {
            (1, self.lrc.1 - self.ulc.1 - 1)
        };
        self.ulc.1 + random_in(start, end)
    }
}

/// Walks the cells of a rectangle in row-major order.
struct RectangleIterator {
    x_index: usize,
    y_index: usize,
    x_beg: usize,
    y_beg: usize,
    x_end: usize,
    y_end: usize,
}

impl RectangleIterator {
    spec fn wf(&self) -> bool {
        &&& self.x_beg <= self.x_end < usize::MAX
        &&& self.y_beg <= self.y_end < usize::MAX
        &&& self.x_beg <= self.x_index <= self.x_end + 1
        &&& self.y_beg <= self.y_index <= self.y_end
        &&& self.y_index > self.y_beg ==> self.x_index > self.x_beg
    }

    /// The iterator walks the cells of `rect`.
    spec fn covers(&self, rect: &Rectangle) -> bool {
        self.x_beg == rect.ulc.0 && self.y_beg == rect.ulc.1 && self.x_end == rect.lrc.0
            && self.y_end == rect.lrc.1
    }

    spec fn width(&self) -> int {
        self.x_end - self.x_beg + 1
    }

    /// How many cells have been handed out so far.
    spec fn produced(&self) -> int {
        (self.y_index - self.y_beg) * self.width() + (self.x_index - self.x_beg)
    }

    /// How many cells there are in all.
    spec fn total(&self) -> int {
        (self.y_end - self.y_beg + 1) * self.width()
    }

    fn new(rect: &Rectangle) -> (r: Self)
        requires
            rect.ulc.0 <= rect.lrc.0 < usize::MAX,
            rect.ulc.1 <= rect.lrc.1 < usize::MAX,
        ensures
            r.wf(),
            r.covers(rect),
            r.produced() == 0,
            r.total() == rect.rows() * rect.cols(),
    {
        RectangleIterator {
            x_index: rect.ulc.0,
            y_index: rect.ulc.1,
            x_beg: rect.ulc.0,
            y_beg: rect.ulc.1,
            x_end: rect.lrc.0,
            y_end: rect.lrc.1,
        }
    }

    /// The next cell, or `None` once all of them have been handed out.
    fn next(&mut self) -> (r: Option<((usize, usize), RectangleIteratorType)>)
        requires
            old(self).wf(),
        ensures
            final(self).wf(),
            final(self).total() == old(self).total(),
            final(self).x_beg == old(self).x_beg && final(self).y_beg == old(self).y_beg,
            final(self).x_end == old(self).x_end && final(self).y_end == old(self).y_end,
            0 <= old(self).produced() <= old(self).total(),
            old(self).produced() == old(self).total() ==> r is None && final(self).produced()
                == old(self).produced(),
            old(self).produced() < old(self).total() ==> final(self).produced() == old(
                self,
            ).produced() + 1 && r == Some(old(self).item_at(old(self).produced())),
    {
        proof {
            self.lemma_produced_bounds();
        }
        if self.y_index >= self.y_end && self.x_index > self.x_end {
            return None;
        }
        let x = if self.x_index > self.x_end {
            self.y_index = self.y_index + 1;
            self.x_index = self.x_beg + 1;
            self.x_beg
        } else {
            self.x_index = self.x_index + 1;
            self.x_index - 1
        };
        let point_type = if x == self.x_beg || x == self.x_end || self.y_index == self.y_beg
            || self.y_index == self.y_end {
            RectangleIteratorType::BORDER
        } else {
            RectangleIteratorType::BODY
        };
        proof {
            let k = old(self).produced();
            let w = self.width();
            lemma_mul_is_distributive_add_other_way(w, self.y_index - self.y_beg - 1, 1);
            lemma_fundamental_div_mod_converse(k, w, self.y_index - self.y_beg, x - self.x_beg);
        }
        Some(((x, self.y_index), point_type))
    }

    /// The `k`-th cell in row-major order and whether it is on the border.
    spec fn item_at(&self, k: int) -> ((usize, usize), RectangleIteratorType) {
        let x = self.x_beg + k % self.width();
        let y = self.y_beg + k / self.width();
        ((x as usize, y as usize), if x == self.x_beg || x == self.x_end || y == self.y_beg || y
            == self.y_end {
            RectangleIteratorType::BORDER
        } else {
            RectangleIteratorType::BODY
        })
    }

    proof fn lemma_produced_bounds(&self)
        requires
            self.wf(),
        ensures
            0 <= self.produced() <= self.total(),
            self.produced() == self.total() <==> (self.y_index >= self.y_end && self.x_index
                > self.x_end),
    {
        let w = self.width();
        let i = self.y_index - self.y_beg;
        let n = self.y_end - self.y_beg;
        lemma_mul_nonnegative(i, w);
        lemma_mul_inequality(i, n, w);
        lemma_mul_is_distributive_add_other_way(w, n, 1);
        if i < n {
            lemma_mul_inequality(i + 1, n, w);
            lemma_mul_is_distributive_add_other_way(w, i, 1);
        }
    }
}

} // verus!
