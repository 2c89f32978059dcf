//! Axis-aligned boxes and the size-trait record used by the layout engine.
//!
//! Coordinates are plain `i32` values: the view tree positions views on an
//! integer pixel grid, and every geometric fact below is stated exactly over
//! the coordinates.

use vstd::prelude::*;

verus! {

/// A point in two dimensions.
#[derive(Clone, Copy, Debug, PartialEq, Eq, Structural)]
pub struct Point2 {
    pub x: i32,
    pub y: i32,
}

/// A displacement in two dimensions.
#[derive(Clone, Copy, Debug, PartialEq, Eq, Structural)]
pub struct Vector2 {
    pub x: i32,
    pub y: i32,
}

/// A point in three dimensions.
#[derive(Clone, Copy, Debug, PartialEq, Eq, Structural)]
pub struct Point3 {
    pub x: i32,
    pub y: i32,
    pub z: i32,
}

/// Represents an axis-aligned 2D box: the minimum coordinate is inclusive,
/// the maximum coordinate exclusive.
#[derive(Clone, Copy, Debug, PartialEq, Eq, Structural)]
pub struct Box2 {
    /// The minimum coordinate (inclusive).
    pub min: Point2,
    /// The maximum coordinate (exclusive).
    pub max: Point2,
}

/// Represents an axis-aligned 3D box: the minimum coordinate is inclusive,
/// the maximum coordinate exclusive.
#[derive(Clone, Copy, Debug, PartialEq, Eq, Structural)]
pub struct Box3 {
    /// The minimum coordinate (inclusive).
    pub min: Point3,
    /// The maximum coordinate (exclusive).
    pub max: Point3,
}

impl Point2 {
    /// Construct a point from its coordinates.
    pub fn new(x: i32, y: i32) -> (r: Self)
        ensures
            r.x == x && r.y == y,
    {
        Point2 { x, y }
    }
}

impl Point3 {
    /// Construct a point from its coordinates.
    pub fn new(x: i32, y: i32, z: i32) -> (r: Self)
        ensures
            r.x == x && r.y == y && r.z == z,
    {
        Point3 { x, y, z }
    }
}

impl Box2 {
    /// Construct a box from its two corners.
    pub fn new(min: Point2, max: Point2) -> (r: Self)
        ensures
            r.min == min && r.max == max,
    {
        Box2 { min, max }
    }

    /// The box whose corners are both the origin.
    pub fn zero() -> (r: Self)
        ensures
            r.min.x == 0 && r.min.y == 0 && r.max.x == 0 && r.max.y == 0,
    {
        Box2 { min: Point2 { x: 0, y: 0 }, max: Point2 { x: 0, y: 0 } }
    }

    /// Whether neither of the box's dimensions is negative.
    pub open spec fn spec_is_valid(self) -> bool {
        self.max.x >= self.min.x && self.max.y >= self.min.y
    }

    /// Return `true` iff none of the box's dimensions is negative.
    pub fn is_valid(&self) -> (r: bool)
        ensures
            r == self.spec_is_valid(),
    {
        self.max.x >= self.min.x && self.max.y >= self.min.y
    }

    /// Whether some dimension of the box is zero or negative.
    pub open spec fn spec_is_empty(self) -> bool {
        self.max.x <= self.min.x || self.max.y <= self.min.y
    }

    /// Return `true` iff at least one of the box's dimensions is zero or
    /// negative, so the box contains no point.
    pub fn is_empty(&self) -> (r: bool)
        ensures
            r == self.spec_is_empty(),
    {
        self.max.x <= self.min.x || self.max.y <= self.min.y
    }

    /// Whether `point` lies inside the box, the maximum edge excluded.
    pub open spec fn spec_contains_point(self, point: Point2) -> bool {
        self.min.x <= point.x < self.max.x && self.min.y <= point.y < self.max.y
    }

    /// Return `true` if a point is inside the box.
    pub fn contains_point(&self, point: &Point2) -> (r: bool)
        ensures
            r == self.spec_contains_point(*point),
    {
        point.x >= self.min.x && point.x < self.max.x && point.y >= self.min.y && point.y
            < self.max.y
    }

    /// Return `true` if a point is inside or on the boundary of the box.
    pub fn contains_point_incl(&self, point: &Point2) -> (r: bool)
        ensures
            r == (self.min.x <= point.x <= self.max.x && self.min.y <= point.y <= self.max.y),
    {
        point.x >= self.min.x && point.x <= self.max.x && point.y >= self.min.y && point.y
            <= self.max.y
    }

    /// Return `true` if `other` is entirely inside `self`.
    pub fn contains_box(&self, other: &Box2) -> (r: bool)
        ensures
            r == (other.min.x >= self.min.x && other.min.y >= self.min.y && other.max.x
                <= self.max.x && other.max.y <= self.max.y),
    {
        other.min.x >= self.min.x && other.min.y >= self.min.y && other.max.x <= self.max.x
            && other.max.y <= self.max.y
    }

    /// Return the in-bound point closest to `p`: each coordinate is clamped
    /// to the box's range.
    pub fn limit_point(&self, p: &Point2) -> (r: Point2)
        requires
            self.spec_is_valid(),
        ensures
            r.x == if p.x < self.min.x {
                self.min.x
            } else if p.x > self.max.x {
                self.max.x
            } else {
                p.x
            },
            r.y == if p.y < self.min.y {
                self.min.y
            } else if p.y > self.max.y {
                self.max.y
            } else {
                p.y
            },
    {
        let x: i32 = if p.x < self.min.x {
            self.min.x
        } else if p.x > self.max.x {
            self.max.x
        } else {
            p.x
        };
        let y: i32 = if p.y < self.min.y {
            self.min.y
        } else if p.y > self.max.y {
            self.max.y
        } else {
            p.y
        };
        Point2 { x, y }
    }

    /// Get the dimensions of the box, `max` minus `min` in each axis.
    pub fn size(&self) -> (r: Vector2)
        requires
            self.max.x - self.min.x <= i32::MAX,
            self.max.y - self.min.y <= i32::MAX,
            self.max.x - self.min.x >= i32::MIN,
            self.max.y - self.min.y >= i32::MIN,
        ensures
            r.x == self.max.x - self.min.x,
            r.y == self.max.y - self.min.y,
    {
        Vector2 { x: self.max.x - self.min.x, y: self.max.y - self.min.y }
    }

    /// The smallest box containing both `self` and `other`: the elementwise
    /// minimum of the minima and maximum of the maxima.
    pub fn union(&self, other: &Box2) -> (r: Box2)
        ensures
            r.min.x == if self.min.x <= other.min.x {
                self.min.x
            } else {
                other.min.x
            },
            r.min.y == if self.min.y <= other.min.y {
                self.min.y
            } else {
                other.min.y
            },
            r.max.x == if self.max.x >= other.max.x {
                self.max.x
            } else {
                other.max.x
            },
            r.max.y == if self.max.y >= other.max.y {
                self.max.y
            } else {
                other.max.y
            },
    {
        Box2 {
            min: Point2 {
                x: if self.min.x <= other.min.x {
                    self.min.x
                } else {
                    other.min.x
                },
                y: if self.min.y <= other.min.y {
                    self.min.y
                } else {
                    other.min.y
                },
            },
            max: Point2 {
                x: if self.max.x >= other.max.x {
                    self.max.x
                } else {
                    other.max.x
                },
                y: if self.max.y >= other.max.y {
                    self.max.y
                } else {
                    other.max.y
                },
            },
        }
    }

    /// The overlap of two boxes: the elementwise maximum of the minima and
    /// minimum of the maxima, or `None` where that box is empty.
    pub fn intersection(&self, other: &Box2) -> (r: Option<Box2>)
        ensures
            ({
                let lo = (Point2 {
                    x: if self.min.x >= other.min.x {
                        self.min.x
                    } else {
                        other.min.x
                    },
                    y: if self.min.y >= other.min.y {
                        self.min.y
                    } else {
                        other.min.y
                    },
                });
                let hi = (Point2 {
                    x: if self.max.x <= other.max.x {
                        self.max.x
                    } else {
                        other.max.x
                    },
                    y: if self.max.y <= other.max.y {
                        self.max.y
                    } else {
                        other.max.y
                    },
                });
                let s = (Box2 { min: lo, max: hi });
                if s.spec_is_empty() {
                    r is None
                } else {
                    r == Some(s)
                }
            }),
    {
        let s = Box2 {
            min: Point2 {
                x: if self.min.x >= other.min.x {
                    self.min.x
                } else {
                    other.min.x
                },
                y: if self.min.y >= other.min.y {
                    self.min.y
                } else {
                    other.min.y
                },
            },
            max: Point2 {
                x: if self.max.x <= other.max.x {
                    self.max.x
                } else {
                    other.max.x
                },
                y: if self.max.y <= other.max.y {
                    self.max.y
                } else {
                    other.max.y
                },
            },
        };
        if s.is_empty() {
            None
        } else {
            Some(s)
        }
    }

    /// The box shifted by `displacement`.
    pub fn translate(&self, displacement: Vector2) -> (r: Box2)
        requires
            i32::MIN <= self.min.x + displacement.x <= i32::MAX,
            i32::MIN <= self.min.y + displacement.y <= i32::MAX,
            i32::MIN <= self.max.x + displacement.x <= i32::MAX,
            i32::MIN <= self.max.y + displacement.y <= i32::MAX,
        ensures
            r.min.x == self.min.x + displacement.x,
            r.min.y == self.min.y + displacement.y,
            r.max.x == self.max.x + displacement.x,
            r.max.y == self.max.y + displacement.y,
    {
        Box2 {
            min: Point2 { x: self.min.x + displacement.x, y: self.min.y + displacement.y },
            max: Point2 { x: self.max.x + displacement.x, y: self.max.y + displacement.y },
        }
    }

    /// The box with corner `min` and the given size.
    pub fn with_size(min: Point2, size: Vector2) -> (r: Box2)
        requires
            i32::MIN <= min.x + size.x <= i32::MAX,
            i32::MIN <= min.y + size.y <= i32::MAX,
        ensures
            r.min == min,
            r.max.x == min.x + size.x,
            r.max.y == min.y + size.y,
    {
        Box2 { min, max: Point2 { x: min.x + size.x, y: min.y + size.y } }
    }
}

impl Box3 {
    /// Construct a box from its two corners.
    pub fn new(min: Point3, max: Point3) -> (r: Self)
        ensures
            r.min == min && r.max == max,
    {
        Box3 { min, max }
    }

    /// The box whose corners are both the origin.
    pub fn zero() -> (r: Self)
        ensures
            r.min.x == 0 && r.min.y == 0 && r.min.z == 0 && r.max.x == 0 && r.max.y == 0
                && r.max.z == 0,
    {
        Box3 {
            min: Point3 { x: 0, y: 0, z: 0 },
            max: Point3 { x: 0, y: 0, z: 0 },
        }
    }

    /// Return `true` iff none of the box's dimensions is negative.
    pub fn is_valid(&self) -> (r: bool)
        ensures
            r == (self.max.x >= self.min.x && self.max.y >= self.min.y && self.max.z
                >= self.min.z),
    {
        self.max.x >= self.min.x && self.max.y >= self.min.y && self.max.z >= self.min.z
    }

    /// Return `true` iff at least one of the box's dimensions is zero or
    /// negative, so the box contains no point.
    pub fn is_empty(&self) -> (r: bool)
        ensures
            r == (self.max.x <= self.min.x || self.max.y <= self.min.y || self.max.z
                <= self.min.z),
    {
        self.max.x <= self.min.x || self.max.y <= self.min.y || self.max.z <= self.min.z
    }
}

/// The sum of two coordinates, clamped to the machine range: how global
/// frames compose local frames along the superview chain without
/// overflowing at the grid's edge.
pub open spec fn spec_sat_add(a: int, b: int) -> int {
    if a + b > i32::MAX {
        i32::MAX as int
    } else if a + b < i32::MIN {
        i32::MIN as int
    } else {
        a + b
    }
}

/// Add two coordinates, clamping at the machine range.
pub fn sat_add(a: i32, b: i32) -> (r: i32)
    ensures
        r == spec_sat_add(a as int, b as int),
{
    if b >= 0 {
        if a > i32::MAX - b {
            i32::MAX
        } else {
            a + b
        }
    } else {
        if a < i32::MIN - b {
            i32::MIN
        } else {
            a + b
        }
    }
}

impl Box2 {
    /// The box shifted by `(dx, dy)` with each coordinate clamped to the
    /// machine range.
    pub open spec fn spec_sat_translate(self, dx: int, dy: int) -> Box2 {
        Box2 {
            min: Point2 {
                x: spec_sat_add(self.min.x as int, dx) as i32,
                y: spec_sat_add(self.min.y as int, dy) as i32,
            },
            max: Point2 {
                x: spec_sat_add(self.max.x as int, dx) as i32,
                y: spec_sat_add(self.max.y as int, dy) as i32,
            },
        }
    }

    /// Shift the box by `(dx, dy)`, clamping at the machine range.
    pub fn sat_translate(&self, dx: i32, dy: i32) -> (r: Box2)
        ensures
            r == self.spec_sat_translate(dx as int, dy as int),
    {
        Box2 {
            min: Point2 { x: sat_add(self.min.x, dx), y: sat_add(self.min.y, dy) },
            max: Point2 { x: sat_add(self.max.x, dx), y: sat_add(self.max.y, dy) },
        }
    }
}

/// A triplet of minimum, maximum and preferred sizes, each axis independent.
///
/// The layout pass computes one of these for every view bottom-up, and the
/// window constrains its own size to the record of its root view.
#[derive(Clone, Copy, Debug, PartialEq, Eq, Structural)]
pub struct SizeTraits {
    pub min: Vector2,
    pub max: Vector2,
    pub preferred: Vector2,
}

impl SizeTraits {
    /// The default record: no minimum, an unbounded maximum, and a zero
    /// preferred size.
    pub fn default_traits() -> (r: Self)
        ensures
            r.min.x == 0 && r.min.y == 0,
            r.max.x == i32::MAX && r.max.y == i32::MAX,
            r.preferred.x == 0 && r.preferred.y == 0,
    {
        SizeTraits {
            min: Vector2 { x: 0, y: 0 },
            max: Vector2 { x: i32::MAX, y: i32::MAX },
            preferred: Vector2 { x: 0, y: 0 },
        }
    }

    /// The record with `self`'s maximum and preferred sizes whose minimum is
    /// raised to at least `other`'s minimum in each axis.
    pub open spec fn spec_raise_min(self, other: SizeTraits) -> SizeTraits {
        SizeTraits {
            min: Vector2 {
                x: if self.min.x >= other.min.x {
                    self.min.x
                } else {
                    other.min.x
                },
                y: if self.min.y >= other.min.y {
                    self.min.y
                } else {
                    other.min.y
                },
            },
            max: self.max,
            preferred: self.preferred,
        }
    }

    /// The record with `self`'s maximum and preferred sizes whose minimum is
    /// raised to at least `other`'s minimum in each axis: how a view's own
    /// traits absorb the requirements of a subview.
    pub fn raise_min(self, other: &SizeTraits) -> (r: Self)
        ensures
            r == self.spec_raise_min(*other),
    {
        SizeTraits {
            min: Vector2 {
                x: if self.min.x >= other.min.x {
                    self.min.x
                } else {
                    other.min.x
                },
                y: if self.min.y >= other.min.y {
                    self.min.y
                } else {
                    other.min.y
                },
            },
            max: self.max,
            preferred: self.preferred,
        }
    }
}

} // verus!
