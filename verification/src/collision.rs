//! Axis-aligned boxes and the test that tells whether two of them overlap.
use crate::fixed::{wide_limit, within};
use crate::vector::{Point, Vec2};
use vstd::prelude::*;

verus! {

/// An axis-aligned box: it sits at `center + offset` and reaches half of
/// `extents` to either side on each axis. The full width and height are
/// kept, so that no half is ever rounded. A disabled box overlaps nothing.
#[derive(Clone, Copy, Debug)]
pub struct RectCollider {
    owner: Option<u64>,
    enabled: bool,
    center: Vec2,
    offset: Vec2,
    extents: Vec2,
}

/// What a `RectCollider` holds, for use in contracts.
pub struct RectModel {
    pub owner: Option<u64>,
    pub enabled: bool,
    pub center: Point,
    pub offset: Point,
    pub extents: Point,
}

/// The magnitude of `x`.
pub open spec fn abs_spec(x: int) -> int {
    if x < 0 {
        -x
    } else {
        x
    }
}

impl RectModel {
    /// Twice the left edge: edges are compared doubled, so that half a width
    /// needs no rounding.
    pub open spec fn x_start(self) -> int {
        2 * (self.center.x + self.offset.x) - self.extents.x
    }

    /// Twice the right edge.
    pub open spec fn x_end(self) -> int {
        2 * (self.center.x + self.offset.x) + self.extents.x
    }

    /// Twice the lower edge.
    pub open spec fn y_start(self) -> int {
        2 * (self.center.y + self.offset.y) - self.extents.y
    }

    /// Twice the upper edge.
    pub open spec fn y_end(self) -> int {
        2 * (self.center.y + self.offset.y) + self.extents.y
    }

    /// Two boxes overlap when both are enabled and their extents overlap on
    /// both axes; boxes that only touch do not overlap.
    pub open spec fn overlaps(self, other: RectModel) -> bool {
        &&& self.enabled
        &&& other.enabled
        &&& self.x_start() < other.x_end()
        &&& self.x_end() > other.x_start()
        &&& self.y_start() < other.y_end()
        &&& self.y_end() > other.y_start()
    }
}

impl View for RectCollider {
    type V = RectModel;

    closed spec fn view(&self) -> RectModel {
        RectModel {
            owner: self.owner,
            enabled: self.enabled,
            center: self.center@,
            offset: self.offset@,
            extents: self.extents@,
        }
    }
}

/// The magnitude of `x`.
fn magnitude(x: i64) -> (m: i64)
    requires
        x > i64::MIN,
    ensures
        m == abs_spec(x as int),
{
    if x < 0 {
        -x
    } else {
        x
    }
}

impl RectCollider {
    /// An enabled box of the given width and height, centred on the origin.
    /// The sign of a width or a height is ignored.
    pub fn new(owner: Option<u64>, offset: Vec2, width: i64, height: i64) -> (r: Self)
        requires
            width > i64::MIN,
            height > i64::MIN,
        ensures
            r@ == (RectModel {
                owner,
                enabled: true,
                center: Point::zero(),
                offset: offset@,
                extents: Point { x: abs_spec(width as int), y: abs_spec(height as int) },
            }),
    {
        Self {
            owner,
            enabled: true,
            center: Vec2 { x: 0, y: 0 },
            offset,
            extents: Vec2 { x: magnitude(width), y: magnitude(height) },
        }
    }

    /// The entity that the box belongs to, if any.
    pub fn owner(&self) -> (o: Option<u64>)
        ensures
            o == self@.owner,
    {
        self.owner
    }

    /// Whether the box still takes part in overlap tests.
    pub fn enabled(&self) -> (e: bool)
        ensures
            e == self@.enabled,
    {
        self.enabled
    }

    /// Where the box was last put.
    pub fn center(&self) -> (c: Vec2)
        ensures
            c@ == self@.center,
    {
        self.center
    }

    /// The displacement of the box from its center.
    pub fn offset(&self) -> (o: Vec2)
        ensures
            o@ == self@.offset,
    {
        self.offset
    }

    /// Takes the box out of every later overlap test.
    pub fn disable(&mut self)
        ensures
            final(self)@ == (RectModel { enabled: false, ..old(self)@ }),
    {
        self.enabled = false;
    }

    /// The full width and height, exactly as the box was made with, but for
    /// their signs.
    pub fn size(&self) -> (s: Vec2)
        ensures
            s@ == self@.extents,
    {
        self.extents
    }

    /// Moves the box.
    pub fn set_center(&mut self, value: Vec2)
        ensures
            final(self)@ == (RectModel { center: value@, ..old(self)@ }),
    {
        self.center = value;
    }

    /// Whether this box and `other` overlap.
    pub fn aabb_collides_with(&self, other: &RectCollider) -> (hit: bool)
        ensures
            hit == self@.overlaps(other@),
    {
        if !self.enabled || !other.enabled {
            return false;
        }
        let self_x: i128 = 2 * (self.center.x as i128 + self.offset.x as i128);
        let self_y: i128 = 2 * (self.center.y as i128 + self.offset.y as i128);
        let self_xs: i128 = self_x - self.extents.x as i128;
        let self_xe: i128 = self_x + self.extents.x as i128;
        let self_ys: i128 = self_y - self.extents.y as i128;
        let self_ye: i128 = self_y + self.extents.y as i128;

        let other_x: i128 = 2 * (other.center.x as i128 + other.offset.x as i128);
        let other_y: i128 = 2 * (other.center.y as i128 + other.offset.y as i128);
        let other_xs: i128 = other_x - other.extents.x as i128;
        let other_xe: i128 = other_x + other.extents.x as i128;
        let other_ys: i128 = other_y - other.extents.y as i128;
        let other_ye: i128 = other_y + other.extents.y as i128;

        self_xs < other_xe && self_xe > other_xs && self_ys < other_ye && self_ye > other_ys
    }
}

/// An enabled box of the given width and height around `center`, owned by
/// nothing and not displaced.
pub open spec fn box_at(center: Point, width: int, height: int) -> RectModel {
    RectModel {
        owner: None,
        enabled: true,
        center,
        offset: Point::zero(),
        extents: Point { x: width, y: height },
    }
}

/// Whether the box of `a_width` by `a_height` around `(a_x, a_y)` overlaps
/// the box of `b_width` by `b_height` around `(b_x, b_y)`, for middles
/// beyond what an `i64` holds.
pub fn wide_boxes_overlap(
    a_x: i128,
    a_y: i128,
    a_width: i64,
    a_height: i64,
    b_x: i128,
    b_y: i128,
    b_width: i64,
    b_height: i64,
) -> (hit: bool)
    requires
        within(a_x as int, wide_limit()),
        within(a_y as int, wide_limit()),
        within(b_x as int, wide_limit()),
        within(b_y as int, wide_limit()),
    ensures
        hit == box_at(
            Point { x: a_x as int, y: a_y as int },
            a_width as int,
            a_height as int,
        ).overlaps(box_at(Point { x: b_x as int, y: b_y as int }, b_width as int, b_height as int)),
{
    let a_xs: i128 = 2 * a_x - a_width as i128;
    let a_xe: i128 = 2 * a_x + a_width as i128;
    let a_ys: i128 = 2 * a_y - a_height as i128;
    let a_ye: i128 = 2 * a_y + a_height as i128;

    let b_xs: i128 = 2 * b_x - b_width as i128;
    let b_xe: i128 = 2 * b_x + b_width as i128;
    let b_ys: i128 = 2 * b_y - b_height as i128;
    let b_ye: i128 = 2 * b_y + b_height as i128;

    a_xs < b_xe && a_xe > b_xs && a_ys < b_ye && a_ye > b_ys
}

/// Overlap does not depend on which of the two boxes is asked.
pub proof fn lemma_overlap_symmetric(a: RectModel, b: RectModel)
    ensures
        a.overlaps(b) == b.overlaps(a),
{
}

/// A disabled box overlaps nothing, and nothing overlaps it.
pub proof fn lemma_disabled_never_overlaps(a: RectModel, b: RectModel)
    requires
        !a.enabled,
    ensures
        !a.overlaps(b),
        !b.overlaps(a),
{
}

} // verus!
