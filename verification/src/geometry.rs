use vstd::prelude::*;

verus! {

/// Absolute value over mathematical integers.
pub open spec fn abs_int(a: int) -> int {
    if a < 0 {
        -a
    } else {
        a
    }
}

/// An integer 2-vector, used both for cell positions and for direction
/// vectors.
#[derive(Copy, Clone, Debug, PartialEq, Eq, Hash, Structural)]
pub struct Vector(pub i32, pub i32);

impl Vector {
    /// Component-wise sum.
    pub fn add(self, other: Self) -> (r: Self)
        requires
            i32::MIN <= self.0 + other.0 <= i32::MAX,
            i32::MIN <= self.1 + other.1 <= i32::MAX,
        ensures
            r.0 == self.0 + other.0,
            r.1 == self.1 + other.1,
    {
        Vector(self.0 + other.0, self.1 + other.1)
    }

    /// Component-wise difference.
    pub fn sub(self, other: Self) -> (r: Self)
        requires
            i32::MIN <= self.0 - other.0 <= i32::MAX,
            i32::MIN <= self.1 - other.1 <= i32::MAX,
        ensures
            r.0 == self.0 - other.0,
            r.1 == self.1 - other.1,
    {
        Vector(self.0 - other.0, self.1 - other.1)
    }

    /// Scalar multiple.
    pub fn mul(self, k: i32) -> (r: Self)
        requires
            i32::MIN <= self.0 * k <= i32::MAX,
            i32::MIN <= self.1 * k <= i32::MAX,
        ensures
            r.0 == self.0 * k,
            r.1 == self.1 * k,
    {
        Vector(self.0 * k, self.1 * k)
    }

    /// Manhattan magnitude.
    pub fn abs(self) -> (r: i32)
        requires
            i32::MIN < self.0,
            i32::MIN < self.1,
            abs_int(self.0 as int) + abs_int(self.1 as int) <= i32::MAX,
        ensures
            r == abs_int(self.0 as int) + abs_int(self.1 as int),
    {
        let a = if self.0 < 0 {
            -self.0
        } else {
            self.0
        };
        let b = if self.1 < 0 {
            -self.1
        } else {
            self.1
        };
        a + b
    }
}

/// An axis-aligned room footprint.
#[derive(Copy, Clone, Debug, PartialEq, Eq, Hash, Structural)]
pub struct Rectangle {
    pub x: i32,
    pub y: i32,
    pub w: i32,
    pub h: i32,
}

impl Rectangle {
    pub open spec fn spec_top(self) -> int {
        self.y as int
    }

    pub open spec fn spec_bottom(self) -> int {
        self.y + self.h
    }

    pub open spec fn spec_left(self) -> int {
        self.x as int
    }

    pub open spec fn spec_right(self) -> int {
        self.x + self.w
    }

    /// A footprint with non-negative position, positive extent, and edges
    /// small enough that separation arithmetic stays within `i32`.
    pub open spec fn in_range(self) -> bool {
        &&& 0 <= self.x
        &&& 0 <= self.y
        &&& 0 < self.w
        &&& 0 < self.h
        &&& self.x + self.w <= i32::MAX / 2
        &&& self.y + self.h <= i32::MAX / 2
    }

    /// The signed separation metric: -1 when the footprints overlap on both
    /// axes, otherwise the Manhattan gap between them (0 when touching).
    pub open spec fn spec_distance(self, other: Self) -> int {
        let v = if self.spec_top() >= other.spec_bottom() {
            self.spec_top() - other.spec_bottom()
        } else if self.spec_bottom() <= other.spec_top() {
            other.spec_top() - self.spec_bottom()
        } else {
            -1
        };
        let h = if self.spec_left() >= other.spec_right() {
            self.spec_left() - other.spec_right()
        } else if self.spec_right() <= other.spec_left() {
            other.spec_left() - self.spec_right()
        } else {
            -1
        };
        if v == -1 && h == -1 {
            -1
        } else if v == -1 {
            h
        } else if h == -1 {
            v
        } else {
            v + h
        }
    }

    pub fn top(self) -> (r: i32)
        ensures
            r == self.spec_top(),
    {
        self.y
    }

    pub fn bottom(self) -> (r: i32)
        requires
            i32::MIN <= self.y + self.h <= i32::MAX,
        ensures
            r == self.spec_bottom(),
    {
        self.y + self.h
    }

    pub fn left(self) -> (r: i32)
        ensures
            r == self.spec_left(),
    {
        self.x
    }

    pub fn right(self) -> (r: i32)
        requires
            i32::MIN <= self.x + self.w <= i32::MAX,
        ensures
            r == self.spec_right(),
    {
        self.x + self.w
    }

    /// Separation metric to another footprint; 0 or negative means touching
    /// or overlapping, positive is the Manhattan gap.
    pub fn distance_to(self, other: Self) -> (r: i32)
        requires
            self.in_range(),
            other.in_range(),
        ensures
            r == self.spec_distance(other),
    {
        let vertical = if self.top() >= other.bottom() {
            self.top() - other.bottom()
        } else if self.bottom() <= other.top() {
            other.top() - self.bottom()
        } else {
            -1
        };

        let horizontal = if self.left() >= other.right() {
            self.left() - other.right()
        } else if self.right() <= other.left() {
            other.left() - self.right()
        } else {
            -1
        };

        if vertical == -1 && horizontal == -1 {
            -1
        } else if vertical == -1 {
            horizontal
        } else if horizontal == -1 {
            vertical
        } else {
            vertical + horizontal
        }
    }
}

/// The separation metric does not depend on the order of its arguments,
/// for footprints of positive extent.
pub proof fn lemma_distance_symmetric(a: Rectangle, b: Rectangle)
    requires
        0 < a.w,
        0 < a.h,
        0 < b.w,
        0 < b.h,
    ensures
        a.spec_distance(b) == b.spec_distance(a),
{
}

/// The cell lies inside the footprint.
pub open spec fn in_room(r: Rectangle, x: int, y: int) -> bool {
    r.x <= x < r.x + r.w && r.y <= y < r.y + r.h
}

/// A positively separated pair of footprints shares no cell.
pub proof fn lemma_separated_disjoint(a: Rectangle, b: Rectangle, x: int, y: int)
    requires
        a.spec_distance(b) > 0,
        a.x <= x < a.x + a.w,
        a.y <= y < a.y + a.h,
    ensures
        !(b.x <= x < b.x + b.w && b.y <= y < b.y + b.h),
{
}

/// Every pair of distinct footprints in the sequence has positive
/// separation: no two of them overlap or touch.
pub open spec fn rooms_separated(rs: Seq<Rectangle>) -> bool {
    forall|i: int, j: int|
        0 <= i < rs.len() && 0 <= j < rs.len() && i != j ==> #[trigger] rs[i].spec_distance(rs[j])
            > 0
}

} // verus!
