//! The data model: a named country with its bounding box and outline shapes,
//! and a visit record pairing a country with a time interval whose end may be
//! open. Each visit owns its copy of the country value.

use vstd::prelude::*;
use crate::date::{date_display, date_to_string, DateTime};
use crate::geometry::{Coord, Polygon, Rect};

verus! {

/// The mathematical value of a `Country`: its name and geometry.
#[verifier::ext_equal]
pub ghost struct CountryV {
    pub name: Seq<char>,
    pub bb: Rect,
    pub shapes: Seq<Seq<Coord>>,
}

/// A named geographic region: a bounding box and outline polygons.
#[derive(Debug)]
pub struct Country {
    pub name: String,
    pub bb: Rect,
    pub shapes: Vec<Polygon>,
}

impl View for Country {
    type V = CountryV;

    open spec fn view(&self) -> CountryV {
        CountryV {
            name: self.name@,
            bb: self.bb,
            shapes: self.shapes@.map_values(|p: Polygon| p@),
        }
    }
}

impl Country {
    /// The sentinel empty country: empty name, all-zero box, no shapes.
    pub fn default() -> (c: Country)
        ensures
            c@.name == Seq::<char>::empty(),
            c@.bb == (Rect { min: Coord { x: 0, y: 0 }, max: Coord { x: 0, y: 0 } }),
            c@.shapes == Seq::<Seq<Coord>>::empty(),
            c@.bb.wf(),
    {
        let c = Country { name: String::new(), bb: Rect::zero(), shapes: Vec::new() };
        proof {
            assert(c@.shapes =~= Seq::<Seq<Coord>>::empty());
        }
        c
    }
}

impl Clone for Country {
    /// Cloning a country keeps its name, box and shapes exactly.
    fn clone(&self) -> (r: Self)
        ensures
            r@ == self@,
    {
        let mut shapes: Vec<Polygon> = Vec::new();
        let mut i: usize = 0;
        while i < self.shapes.len()
            invariant
                i <= self.shapes.len(),
                shapes@.len() == i as int,
                forall|j: int| 0 <= j < i as int ==> (#[trigger] shapes@[j])@ == self.shapes@[j]@,
            decreases self.shapes.len() - i,
        {
            shapes.push(self.shapes[i].clone());
            i = i + 1;
        }
        let r = Country { name: self.name.clone(), bb: self.bb, shapes };
        proof {
            assert(r@.shapes =~= self@.shapes);
            assert(r@ =~= self@);
        }
        r
    }
}

/// The mathematical value of a `Visit`.
#[verifier::ext_equal]
pub ghost struct VisitV {
    pub country: CountryV,
    pub start: DateTime,
    pub end: Option<DateTime>,
}

impl VisitV {
    /// Dates of the visit lie within calendar ranges.
    pub open spec fn wf(self) -> bool {
        &&& self.start.wf()
        &&& match self.end {
            Some(e) => e.wf(),
            None => true,
        }
    }
}

/// A record of one stay in a country: arrival and an optional departure.
/// `end == None` means the visit is ongoing.
#[derive(Debug)]
pub struct Visit {
    pub country: Country,
    pub start: DateTime,
    pub end: Option<DateTime>,
}

impl View for Visit {
    type V = VisitV;

    open spec fn view(&self) -> VisitV {
        VisitV { country: self.country@, start: self.start, end: self.end }
    }
}

impl Clone for Visit {
    /// Cloning a visit keeps its country and dates exactly.
    fn clone(&self) -> (r: Self)
        ensures
            r@ == self@,
    {
        let r = Visit { country: self.country.clone(), start: self.start, end: self.end };
        proof {
            assert(r@ =~= self@);
        }
        r
    }
}

/// The display string of an optional departure date: the date's display
/// string when present, the empty string when the visit is ongoing.
pub open spec fn end_display(end: Option<DateTime>) -> Seq<char> {
    match end {
        Some(e) => date_display(e),
        None => Seq::<char>::empty(),
    }
}

impl Visit {
    /// Dates of the visit lie within calendar ranges. An inverted interval
    /// (`end` before `start`) is accepted: no ordering is validated here.
    pub open spec fn wf(self) -> bool {
        self@.wf()
    }

    /// Builds a visit; the fields are stored unchanged, nothing is validated.
    pub fn new(country: Country, start: DateTime, end: Option<DateTime>) -> (v: Visit)
        ensures
            v.country == country,
            v.start == start,
            v.end == end,
    {
        Visit { country, start, end }
    }

    /// Renders the arrival date as `"DD Mon YYYY"`.
    pub fn start_to_string(&self) -> (s: String)
        requires
            self.start.wf(),
        ensures
            s@ == date_display(self.start),
    {
        date_to_string(&self.start)
    }

    /// Renders the departure date as `"DD Mon YYYY"`, or as the empty string
    /// when the visit has no end.
    pub fn end_to_string(&self) -> (s: String)
        requires
            match self.end {
                Some(e) => e.wf(),
                None => true,
            },
        ensures
            s@ == end_display(self.end),
    {
        match &self.end {
            Some(e) => date_to_string(e),
            None => String::new(),
        }
    }
}

/// The full set of a traveler's visits, in the order they were recorded.
pub type Visits = Vec<Visit>;

} // verus!
