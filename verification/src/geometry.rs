use vstd::prelude::*;

verus! {

/// An axis-aligned rectangle over a scalar domain `T`, given by its lower
/// corner `(x0, y0)` and upper corner `(x1, y1)`.
///
/// The index works on the 8-bit grid domain `BoundingBox<u8>`; callers that
/// place real-valued geometry convert their world boxes to grid boxes before
/// handing them to the tree.
#[derive(Clone, Copy, Debug)]
pub struct BoundingBox<T: Copy> {
    pub x0: T,
    pub y0: T,
    pub x1: T,
    pub y1: T,
}

impl<T: Copy> BoundingBox<T> {
    pub fn new(x0: T, y0: T, x1: T, y1: T) -> (r: Self)
        ensures
            r.x0 == x0,
            r.y0 == y0,
            r.x1 == x1,
            r.y1 == y1,
    {
        BoundingBox { x0, y0, x1, y1 }
    }
}

/// The collision capability a payload type offers. `conflicts` is the
/// mathematical statement of the collision relation; `intersects` is the
/// executable decision procedure, which every implementor must prove agrees
/// with it.
pub trait Intersection {
    spec fn conflicts(self, other: Self) -> bool;

    fn intersects(&self, other: &Self) -> (r: bool)
        ensures
            r == self.conflicts(*other),
    ;
}

/// Decides whether two payloads collide, by the payload type's own predicate.
pub fn intersects<T: Intersection>(item: &T, other: &T) -> (r: bool)
    ensures
        r == item.conflicts(*other),
{
    item.intersects(other)
}

} // verus!
