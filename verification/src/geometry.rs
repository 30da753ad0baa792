//! Passive geometric data: coordinates, axis-aligned rectangles and polygon
//! outlines. Coordinates are fixed-point values (a longitude or latitude
//! scaled to integer units), so no geometric computation is performed here;
//! the shapes are stored and handed on unchanged.

use vstd::prelude::*;

verus! {

/// A geographic coordinate pair, held as fixed-point integer units.
#[derive(Clone, Copy, PartialEq, Eq, Structural, Debug)]
pub struct Coord {
    pub x: i64,
    pub y: i64,
}

/// An axis-aligned rectangle given by its minimum and maximum corners.
#[derive(Clone, Copy, PartialEq, Eq, Structural, Debug)]
pub struct Rect {
    pub min: Coord,
    pub max: Coord,
}

impl Rect {
    /// A rectangle is well formed when its corners are ordered on both axes.
    /// The all-zero sentinel satisfies this trivially.
    pub open spec fn wf(self) -> bool {
        self.min.x <= self.max.x && self.min.y <= self.max.y
    }

    /// The all-zero sentinel rectangle used before real data is available.
    pub fn zero() -> (r: Rect)
        ensures
            r == (Rect { min: Coord { x: 0, y: 0 }, max: Coord { x: 0, y: 0 } }),
            r.wf(),
    {
        Rect { min: Coord { x: 0, y: 0 }, max: Coord { x: 0, y: 0 } }
    }
}

/// One closed outline of a country: an ordered list of coordinate pairs.
#[derive(Debug)]
pub struct Polygon {
    pub points: Vec<Coord>,
}

impl View for Polygon {
    type V = Seq<Coord>;

    open spec fn view(&self) -> Seq<Coord> {
        self.points@
    }
}

impl Clone for Polygon {
    /// Cloning a polygon keeps its points exactly.
    fn clone(&self) -> (r: Self)
        ensures
            r@ == self@,
    {
        let mut points: Vec<Coord> = Vec::new();
        let mut i: usize = 0;
        while i < self.points.len()
            invariant
                i <= self.points.len(),
                points@ == self.points@.take(i as int),
            decreases self.points.len() - i,
        {
            points.push(self.points[i]);
            proof {
                assert(points@ =~= self.points@.take(i as int + 1));
            }
            i = i + 1;
        }
        proof {
            assert(points@ =~= self.points@);
        }
        Polygon { points }
    }
}

} // verus!
