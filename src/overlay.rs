use ndarray::Array2;
use vstd::prelude::*;

verus! {

/// A 2-D ndarray of flags, indexed `(x, y)`; Verus sees only what the
/// functions below state of it.
#[verifier::external_body]
pub struct FlagArray {
    inner: Array2<bool>,
}

/// What a 2-D ndarray of flags holds, by `(x, y)` index.
pub uninterp spec fn flag_cells(a: FlagArray) -> Map<(usize, usize), bool>;

/// The shape a 2-D ndarray of flags was made with, `(width, height)`.
pub uninterp spec fn flag_shape(a: FlagArray) -> (usize, usize);

/// The product of the non-zero axis lengths, which ndarray checks against `isize::MAX`.
pub open spec fn nonzero_size(width: usize, height: usize) -> int {
    (if width == 0 { 1int } else { width as int }) * (if height == 0 { 1int } else { height as int })
}

/// `loc` lies inside an array of this shape.
pub open spec fn within(shape: (usize, usize), loc: (usize, usize)) -> bool {
    loc.0 < shape.0 && loc.1 < shape.1
}

/// Relies on ndarray's `Array::from_elem`: an array of the given shape with
/// every element a copy of `value`; it panics when the product of the
/// non-zero axis lengths overflows `isize`.
#[verifier::external_body]
fn flags_filled(width: usize, height: usize, value: bool) -> (r: FlagArray)
    requires
        nonzero_size(width, height) <= isize::MAX,
    ensures
        flag_shape(r) == (width, height),
        forall|loc: (usize, usize)|
            within((width, height), loc) ==> #[trigger] flag_cells(r)[loc] == value,
{
    FlagArray { inner: Array2::from_elem((width, height), value) }
}

/// Relies on ndarray's `ArrayBase::get`: the element at `loc`, `None` out of bounds.
#[verifier::external_body]
fn flag_get(a: &FlagArray, loc: (usize, usize)) -> (r: Option<bool>)
    ensures
        within(flag_shape(*a), loc) ==> r == Some(flag_cells(*a)[loc]),
        !within(flag_shape(*a), loc) ==> r is None,
{
    a.inner.get(loc).copied()
}

/// Relies on ndarray's `ArrayBase::get_mut`: a reference to the element at
/// `loc`, `None` out of bounds; the write changes that element alone.
#[verifier::external_body]
fn flag_set(a: &mut FlagArray, loc: (usize, usize), value: bool) -> (r: bool)
    ensures
        flag_shape(*final(a)) == flag_shape(*old(a)),
        r == within(flag_shape(*old(a)), loc),
        forall|q: (usize, usize)|
            within(flag_shape(*old(a)), q) ==> #[trigger] flag_cells(*final(a))[q] == if r && q
                == loc {
                value
            } else {
                flag_cells(*old(a))[q]
            },
{
    match a.inner.get_mut(loc) {
        Some(cell) => {
            *cell = value;
            true
        },
        None => false,
    }
}

/// Relies on ndarray's `ArrayBase::fill`: every element becomes `value`.
#[verifier::external_body]
fn flag_fill(a: &mut FlagArray, value: bool)
    ensures
        flag_shape(*final(a)) == flag_shape(*old(a)),
        forall|q: (usize, usize)|
            within(flag_shape(*old(a)), q) ==> #[trigger] flag_cells(*final(a))[q] == value,
{
    a.inner.fill(value)
}

/// A dense grid of flags with the dimensions of the map it belongs to, and a
/// default value that `reset` restores.
pub struct Overlay {
    data: FlagArray,
    default: bool,
}

impl Overlay {
    pub closed spec fn width(&self) -> nat {
        flag_shape(self.data).0 as nat
    }

    pub closed spec fn height(&self) -> nat {
        flag_shape(self.data).1 as nat
    }

    pub closed spec fn default_value(&self) -> bool {
        self.default
    }

    pub open spec fn in_bounds(&self, loc: (usize, usize)) -> bool {
        loc.0 < self.width() && loc.1 < self.height()
    }

    /// The flag at `loc` (meaningful in bounds).
    pub closed spec fn at(&self, loc: (usize, usize)) -> bool {
        flag_cells(self.data)[loc]
    }

    /// The flags by coordinate, over the cells in bounds.
    pub open spec fn flag_map(&self) -> Map<(usize, usize), bool> {
        Map::new(|q: (usize, usize)| self.in_bounds(q), |q: (usize, usize)| self.at(q))
    }

    /// A `width` by `height` overlay holding `default` everywhere.
    pub fn new(width: usize, height: usize, default: bool) -> (r: Self)
        requires
            nonzero_size(width, height) <= isize::MAX,
        ensures
            r.width() == width,
            r.height() == height,
            r.default_value() == default,
            forall|loc: (usize, usize)| r.in_bounds(loc) ==> #[trigger] r.at(loc) == default,
    {
        Overlay { data: flags_filled(width, height, default), default }
    }

    /// The flag at `loc`; absent exactly when `loc` is out of bounds.
    pub fn get(&self, loc: (usize, usize)) -> (r: Option<bool>)
        ensures
            self.in_bounds(loc) ==> r == Some(self.at(loc)),
            !self.in_bounds(loc) ==> r is None,
    {
        flag_get(&self.data, loc)
    }

    /// Writes `value` at `loc` and returns true; out of bounds, changes nothing
    /// and returns false.
    pub fn set(&mut self, loc: (usize, usize), value: bool) -> (r: bool)
        ensures
            final(self).width() == old(self).width(),
            final(self).height() == old(self).height(),
            final(self).default_value() == old(self).default_value(),
            r == old(self).in_bounds(loc),
            forall|q: (usize, usize)|
                old(self).in_bounds(q) ==> #[trigger] final(self).at(q) == if r && q == loc {
                    value
                } else {
                    old(self).at(q)
                },
    {
        flag_set(&mut self.data, loc, value)
    }

    /// Rewrites every cell to the default.
    pub fn reset(&mut self)
        ensures
            final(self).width() == old(self).width(),
            final(self).height() == old(self).height(),
            final(self).default_value() == old(self).default_value(),
            forall|q: (usize, usize)|
                old(self).in_bounds(q) ==> #[trigger] final(self).at(q) == old(self).default_value(),
    {
        let d = self.default;
        flag_fill(&mut self.data, d);
    }

    /// ORs `other` into this overlay cell by cell; both must have the same dimensions.
    pub fn or(&mut self, other: &Self)
        requires
            old(self).width() == other.width(),
            old(self).height() == other.height(),
        ensures
            final(self).width() == old(self).width(),
            final(self).height() == old(self).height(),
            final(self).default_value() == old(self).default_value(),
            forall|q: (usize, usize)|
                old(self).in_bounds(q) ==> #[trigger] final(self).at(q) == (old(self).at(q)
                    || other.at(q)),
            final(self).flag_map() == or_flags(old(self).flag_map(), other.flag_map()),
    {
        let (width, height) = self.dims();
        let mut y: usize = 0;
        while y < height
            invariant
                self.width() == width == other.width(),
                self.height() == height == other.height(),
                self.default_value() == old(self).default_value(),
                y <= height,
                forall|q: (usize, usize)|
                    self.in_bounds(q) ==> #[trigger] self.at(q) == if q.1 < y {
                        old(self).at(q) || other.at(q)
                    } else {
                        old(self).at(q)
                    },
            decreases height - y,
        {
            let mut x: usize = 0;
            while x < width
                invariant
                    self.width() == width == other.width(),
                    self.height() == height == other.height(),
                    self.default_value() == old(self).default_value(),
                    y < height,
                    x <= width,
                    forall|q: (usize, usize)|
                        self.in_bounds(q) ==> #[trigger] self.at(q) == if q.1 < y || (q.1 == y
                            && q.0 < x) {
                            old(self).at(q) || other.at(q)
                        } else {
                            old(self).at(q)
                        },
                decreases width - x,
            {
                let mine = self.get((x, y)).unwrap();
                let theirs = other.get((x, y)).unwrap();
                self.set((x, y), mine || theirs);
                x = x + 1;
            }
            y = y + 1;
        }
        assert(self.flag_map() =~= or_flags(old(self).flag_map(), other.flag_map()));
    }

    /// The value `reset` restores.
    pub fn default_flag(&self) -> (r: bool)
        ensures
            r == self.default_value(),
    {
        self.default
    }

    /// The dimensions, `(width, height)`.
    pub fn dims(&self) -> (r: (usize, usize))
        ensures
            r.0 == self.width(),
            r.1 == self.height(),
    {
        flag_dims(&self.data)
    }

    /// Every cell with its coordinate, in row-major order.
    pub fn iter(&self) -> (r: Vec<((usize, usize), bool)>)
        ensures
            r@.len() == self.width() * self.height(),
            forall|k: int|
                0 <= k < r@.len() ==> {
                    let loc = ((k % self.width() as int) as usize, (k / self.width() as int) as usize);
                    &&& self.in_bounds(loc)
                    &&& #[trigger] r@[k] == (loc, self.at(loc))
                },
    {
        let (width, height) = self.dims();
        let mut out: Vec<((usize, usize), bool)> = Vec::new();
        let mut y: usize = 0;
        while y < height
            invariant
                self.width() == width,
                self.height() == height,
                y <= height,
                out@.len() == y * width,
                forall|k: int|
                    0 <= k < out@.len() ==> {
                        let loc = ((k % width as int) as usize, (k / width as int) as usize);
                        #[trigger] out@[k] == (loc, self.at(loc))
                    },
            decreases height - y,
        {
            let mut x: usize = 0;
            while x < width
                invariant
                    self.width() == width,
                    self.height() == height,
                    y < height,
                    x <= width,
                    out@.len() == y * width + x,
                    forall|k: int|
                        0 <= k < out@.len() ==> {
                            let loc = ((k % width as int) as usize, (k / width as int) as usize);
                            #[trigger] out@[k] == (loc, self.at(loc))
                        },
                decreases width - x,
            {
                proof {
                    crate::map::lemma_index_in_range(x as int, y as int, width as int, height as int);
                    vstd::arithmetic::div_mod::lemma_fundamental_div_mod_converse(
                        (y * width + x) as int,
                        width as int,
                        y as int,
                        x as int,
                    );
                }
                let v = self.get((x, y)).unwrap();
                out.push(((x, y), v));
                x = x + 1;
            }
            proof {
                vstd::arithmetic::mul::lemma_mul_is_distributive_add_other_way(width as int, y as int, 1);
            }
            y = y + 1;
        }
        proof {
            vstd::arithmetic::mul::lemma_mul_is_commutative(width as int, height as int);
            assert forall|k: int| 0 <= k < out@.len() implies #[trigger] self.in_bounds(
                ((k % width as int) as usize, (k / width as int) as usize),
            ) by {
                vstd::arithmetic::div_mod::lemma_fundamental_div_mod(k, width as int);
                vstd::arithmetic::div_mod::lemma_mod_pos_bound(k, width as int);
                vstd::arithmetic::div_mod::lemma_div_pos_is_pos(k, width as int);
                if k / width as int >= height {
                    vstd::arithmetic::mul::lemma_mul_inequality(height as int, k / width as int, width as int);
                    vstd::arithmetic::mul::lemma_mul_is_commutative(width as int, k / width as int);
                }
            }
        }
        out
    }
}

/// Relies on ndarray's `ArrayBase::dim`: the shape the array was made with.
#[verifier::external_body]
fn flag_dims(a: &FlagArray) -> (r: (usize, usize))
    ensures
        r == flag_shape(*a),
{
    a.inner.dim()
}

/// Cell-by-cell OR of two flag maps, over the cells of the first.
pub open spec fn or_flags(a: Map<(usize, usize), bool>, b: Map<(usize, usize), bool>) -> Map<
    (usize, usize),
    bool,
> {
    Map::new(|q: (usize, usize)| a.dom().contains(q), |q: (usize, usize)| a[q] || b[q])
}

/// Merging overlays of one size with `or` is commutative and associative, so
/// several merged in any order give the same flags: `(a | b) | c == (a | c) | b`.
pub proof fn lemma_or_order_free(a: &Overlay, b: &Overlay, c: &Overlay)
    requires
        a.width() == b.width() == c.width(),
        a.height() == b.height() == c.height(),
    ensures
        or_flags(a.flag_map(), b.flag_map()) == or_flags(b.flag_map(), a.flag_map()),
        or_flags(or_flags(a.flag_map(), b.flag_map()), c.flag_map()) == or_flags(
            a.flag_map(),
            or_flags(b.flag_map(), c.flag_map()),
        ),
        or_flags(or_flags(a.flag_map(), b.flag_map()), c.flag_map()) == or_flags(
            or_flags(a.flag_map(), c.flag_map()),
            b.flag_map(),
        ),
{
    let (fa, fb, fc) = (a.flag_map(), b.flag_map(), c.flag_map());
    assert(or_flags(fa, fb) =~= or_flags(fb, fa));
    assert(or_flags(or_flags(fa, fb), fc) =~= or_flags(fa, or_flags(fb, fc)));
    assert(or_flags(or_flags(fa, fb), fc) =~= or_flags(or_flags(fa, fc), fb));
}

} // verus!
