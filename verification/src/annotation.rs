use vstd::prelude::*;

verus! {

/// Number of micro-units in one full normalized unit: coordinates are stored
/// in fixed point with six decimal places, so `1.0` is `1_000_000` micro-units.
pub const MICRO_ONE: u32 = 1000000;

/// A detection record: a class identifier and a normalized bounding box
/// (center and size). Coordinates are kept in fixed-point micro-units so the
/// six-decimal label format is exact.
#[derive(Clone, Copy, PartialEq, Eq, Structural, Debug)]
pub struct Annotation {
    pub class_id: u32,
    pub cx: u32,
    pub cy: u32,
    pub w: u32,
    pub h: u32,
}

impl Annotation {
    /// Every coordinate is normalized: it lies in [0, 1], that is, it is at
    /// most `MICRO_ONE` micro-units.
    pub open spec fn valid(self) -> bool {
        self.cx <= MICRO_ONE && self.cy <= MICRO_ONE && self.w <= MICRO_ONE && self.h
            <= MICRO_ONE
    }

    pub fn new(class_id: u32, cx: u32, cy: u32, w: u32, h: u32) -> (r: Annotation)
        requires
            cx <= MICRO_ONE,
            cy <= MICRO_ONE,
            w <= MICRO_ONE,
            h <= MICRO_ONE,
        ensures
            r == (Annotation { class_id, cx, cy, w, h }),
            r.valid(),
    {
        Annotation { class_id, cx, cy, w, h }
    }
}

} // verus!
