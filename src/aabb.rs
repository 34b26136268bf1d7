//! Axis-aligned bounding boxes on an integer grid.
//!
//! Callers quantize their geometry outward onto the grid, so a box here always
//! encloses the shape it stands for; the hierarchy only needs such
//! conservative boxes.
use vstd::prelude::*;

verus! {

/// A point of the grid.
#[derive(Clone, Copy, Debug, PartialEq, Eq, Structural)]
pub struct GridPoint {
    pub x: i32,
    pub y: i32,
    pub z: i32,
}

impl GridPoint {
    /// The coordinate along `axis` (0 = x, 1 = y, anything else = z).
    pub open spec fn at(self, axis: int) -> i32 {
        if axis == 0 {
            self.x
        } else if axis == 1 {
            self.y
        } else {
            self.z
        }
    }

    pub fn new(x: i32, y: i32, z: i32) -> (r: GridPoint)
        ensures
            r == (GridPoint { x, y, z }),
    {
        GridPoint { x, y, z }
    }

    /// The coordinate along `axis`.
    pub fn get(&self, axis: usize) -> (r: i32)
        ensures
            r == self.at(axis as int),
    {
        if axis == 0 {
            self.x
        } else if axis == 1 {
            self.y
        } else {
            self.z
        }
    }
}

/// An axis-aligned box `[min, max]`.
#[derive(Clone, Copy, Debug, PartialEq, Eq, Structural)]
pub struct Aabb {
    pub min: GridPoint,
    pub max: GridPoint,
}

/// The smaller of two coordinates.
pub open spec fn min_i32(a: i32, b: i32) -> i32 {
    if a <= b { a } else { b }
}

/// The larger of two coordinates.
pub open spec fn max_i32(a: i32, b: i32) -> i32 {
    if a >= b { a } else { b }
}

fn min_of(a: i32, b: i32) -> (r: i32)
    ensures
        r == min_i32(a, b),
{
    if a <= b { a } else { b }
}

fn max_of(a: i32, b: i32) -> (r: i32)
    ensures
        r == max_i32(a, b),
{
    if a >= b { a } else { b }
}

impl Aabb {
    /// `min <= max` on every axis.
    pub open spec fn wf(self) -> bool {
        &&& self.min.x <= self.max.x
        &&& self.min.y <= self.max.y
        &&& self.min.z <= self.max.z
    }

    /// `other` lies entirely inside `self`.
    pub open spec fn encloses(self, other: Aabb) -> bool {
        &&& self.min.x <= other.min.x && other.max.x <= self.max.x
        &&& self.min.y <= other.min.y && other.max.y <= self.max.y
        &&& self.min.z <= other.min.z && other.max.z <= self.max.z
    }

    /// The smallest box holding both `a` and `b`: component-wise min and max.
    pub open spec fn surround(a: Aabb, b: Aabb) -> Aabb {
        Aabb {
            min: GridPoint {
                x: min_i32(a.min.x, b.min.x),
                y: min_i32(a.min.y, b.min.y),
                z: min_i32(a.min.z, b.min.z),
            },
            max: GridPoint {
                x: max_i32(a.max.x, b.max.x),
                y: max_i32(a.max.y, b.max.y),
                z: max_i32(a.max.z, b.max.z),
            },
        }
    }

    /// Width of the box along `axis`.
    pub open spec fn extent_spec(self, axis: int) -> int {
        self.max.at(axis) - self.min.at(axis)
    }

    /// Twice the centre along `axis` (kept doubled so that it stays exact).
    pub open spec fn centroid2_spec(self, axis: int) -> int {
        self.min.at(axis) + self.max.at(axis)
    }

    /// The axis of greatest extent; ties go to the later axis (x only when
    /// strictly longest, then y when not shorter than z, else z).
    pub open spec fn longest_axis_spec(self) -> usize {
        let dx = self.extent_spec(0);
        let dy = self.extent_spec(1);
        let dz = self.extent_spec(2);
        if dx > dy && dx > dz {
            0
        } else if dy > dz {
            1
        } else {
            2
        }
    }

    /// Builds the box `[min, max]`.
    pub fn new(min: GridPoint, max: GridPoint) -> (r: Aabb)
        requires
            min.x <= max.x,
            min.y <= max.y,
            min.z <= max.z,
        ensures
            r.min == min,
            r.max == max,
            r.wf(),
    {
        Aabb { min, max }
    }

    /// The box that surrounds both `a` and `b`.
    pub fn surrounding(a: &Aabb, b: &Aabb) -> (r: Aabb)
        ensures
            r == Aabb::surround(*a, *b),
    {
        Aabb {
            min: GridPoint {
                x: min_of(a.min.x, b.min.x),
                y: min_of(a.min.y, b.min.y),
                z: min_of(a.min.z, b.min.z),
            },
            max: GridPoint {
                x: max_of(a.max.x, b.max.x),
                y: max_of(a.max.y, b.max.y),
                z: max_of(a.max.z, b.max.z),
            },
        }
    }

    /// Whether `other` lies entirely inside `self`.
    pub fn contains(&self, other: &Aabb) -> (r: bool)
        ensures
            r == self.encloses(*other),
    {
        self.min.x <= other.min.x && other.max.x <= self.max.x
            && self.min.y <= other.min.y && other.max.y <= self.max.y
            && self.min.z <= other.min.z && other.max.z <= self.max.z
    }

    /// Width of the box along `axis`.
    pub fn extent(&self, axis: usize) -> (r: i64)
        requires
            axis < 3,
        ensures
            r == self.extent_spec(axis as int),
    {
        self.max.get(axis) as i64 - self.min.get(axis) as i64
    }

    /// Twice the centre of the box along `axis`.
    pub fn centroid2(&self, axis: usize) -> (r: i64)
        requires
            axis < 3,
        ensures
            r == self.centroid2_spec(axis as int),
    {
        self.min.get(axis) as i64 + self.max.get(axis) as i64
    }

    /// The axis along which the box is longest.
    pub fn longest_axis(&self) -> (r: usize)
        ensures
            r == self.longest_axis_spec(),
            r < 3,
    {
        let dx = self.extent(0);
        let dy = self.extent(1);
        let dz = self.extent(2);
        if dx > dy && dx > dz {
            0
        } else if dy > dz {
            1
        } else {
            2
        }
    }
}

/// Containment is transitive.
pub proof fn lemma_encloses_trans(a: Aabb, b: Aabb, c: Aabb)
    requires
        a.encloses(b),
        b.encloses(c),
    ensures
        a.encloses(c),
{
}

/// The surrounding box of `a` and `b` contains both of them entirely, and it
/// is well formed whenever they are.
pub proof fn lemma_surrounding_contains(a: Aabb, b: Aabb)
    ensures
        Aabb::surround(a, b).encloses(a),
        Aabb::surround(a, b).encloses(b),
        a.wf() && b.wf() ==> Aabb::surround(a, b).wf(),
{
}

} // verus!
