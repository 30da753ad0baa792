//! Rendering grouped visits into the rows a tree presentation consumes: for
//! each group a header label (the key) and its child rows of display strings.
//! Under a country header a row is (arrival, departure); under a year header
//! a row is (country name, arrival, departure).

use vstd::prelude::*;
use crate::country::end_display;
use crate::date::date_display;
use crate::grouping::{Group, GroupV};

verus! {

/// Every visit in every group carries dates within calendar ranges.
pub open spec fn groups_wf(gs: Seq<GroupV>) -> bool {
    forall|g: int, j: int|
        0 <= g < gs.len() && 0 <= j < gs[g].rows.len() ==> (#[trigger] gs[g].rows[j]).wf()
}

/// Renders groups keyed by country: each group's label and, for each visit in
/// it, its (arrival, departure) display strings. The country name is not
/// repeated in the rows, since it is the group's label.
pub fn country_rows(groups: &Vec<Group>) -> (r: Vec<(String, Vec<(String, String)>)>)
    requires
        groups_wf(groups@.map_values(|g: Group| g@)),
    ensures
        r@.len() == groups@.len(),
        forall|g: int|
            0 <= g < r@.len() ==> (#[trigger] r@[g]).0@ == groups@[g]@.key && r@[g].1@.len()
                == groups@[g]@.rows.len(),
        forall|g: int, j: int|
            0 <= g < r@.len() && 0 <= j < r@[g].1@.len() ==> (#[trigger] r@[g].1@[j]).0@
                == date_display(groups@[g]@.rows[j].start) && r@[g].1@[j].1@ == end_display(
                groups@[g]@.rows[j].end,
            ),
{
    let mut r: Vec<(String, Vec<(String, String)>)> = Vec::new();
    let mut g: usize = 0;
    while g < groups.len()
        invariant
            g <= groups@.len(),
            r@.len() == g as int,
            groups_wf(groups@.map_values(|gr: Group| gr@)),
            forall|t: int|
                0 <= t < g as int ==> (#[trigger] r@[t]).0@ == groups@[t]@.key && r@[t].1@.len()
                    == groups@[t]@.rows.len(),
            forall|t: int, j: int|
                0 <= t < g as int && 0 <= j < r@[t].1@.len() ==> (#[trigger] r@[t].1@[j]).0@
                    == date_display(groups@[t]@.rows[j].start) && r@[t].1@[j].1@ == end_display(
                    groups@[t]@.rows[j].end,
                ),
        decreases groups@.len() - g,
    {
        let grp = &groups[g];
        proof {
            assert(groups@.map_values(|gr: Group| gr@)[g as int] == grp@);
        }
        let mut rows: Vec<(String, String)> = Vec::new();
        let mut j: usize = 0;
        while j < grp.rows.len()
            invariant
                j <= grp.rows@.len(),
                rows@.len() == j as int,
                forall|t: int| 0 <= t < grp@.rows.len() ==> (#[trigger] grp@.rows[t]).wf(),
                forall|t: int|
                    0 <= t < j as int ==> (#[trigger] rows@[t]).0@ == date_display(
                        grp@.rows[t].start,
                    ) && rows@[t].1@ == end_display(grp@.rows[t].end),
            decreases grp.rows@.len() - j,
        {
            let v = &grp.rows[j];
            proof {
                assert(grp@.rows[j as int] == v@);
            }
            let start = v.start_to_string();
            let end = v.end_to_string();
            rows.push((start, end));
            j = j + 1;
        }
        r.push((grp.key.clone(), rows));
        g = g + 1;
    }
    r
}

/// Renders groups keyed by year: each group's label and, for each visit in
/// it, its (country name, arrival, departure) display strings — the country
/// must still be shown, since the year is the group's label.
pub fn year_rows(groups: &Vec<Group>) -> (r: Vec<(String, Vec<(String, String, String)>)>)
    requires
        groups_wf(groups@.map_values(|g: Group| g@)),
    ensures
        r@.len() == groups@.len(),
        forall|g: int|
            0 <= g < r@.len() ==> (#[trigger] r@[g]).0@ == groups@[g]@.key && r@[g].1@.len()
                == groups@[g]@.rows.len(),
        forall|g: int, j: int|
            0 <= g < r@.len() && 0 <= j < r@[g].1@.len() ==> (#[trigger] r@[g].1@[j]).0@
                == groups@[g]@.rows[j].country.name && r@[g].1@[j].1@ == date_display(
                groups@[g]@.rows[j].start,
            ) && r@[g].1@[j].2@ == end_display(groups@[g]@.rows[j].end),
{
    let mut r: Vec<(String, Vec<(String, String, String)>)> = Vec::new();
    let mut g: usize = 0;
    while g < groups.len()
        invariant
            g <= groups@.len(),
            r@.len() == g as int,
            groups_wf(groups@.map_values(|gr: Group| gr@)),
            forall|t: int|
                0 <= t < g as int ==> (#[trigger] r@[t]).0@ == groups@[t]@.key && r@[t].1@.len()
                    == groups@[t]@.rows.len(),
            forall|t: int, j: int|
                0 <= t < g as int && 0 <= j < r@[t].1@.len() ==> (#[trigger] r@[t].1@[j]).0@
                    == groups@[t]@.rows[j].country.name && r@[t].1@[j].1@ == date_display(
                    groups@[t]@.rows[j].start,
                ) && r@[t].1@[j].2@ == end_display(groups@[t]@.rows[j].end),
        decreases groups@.len() - g,
    {
        let grp = &groups[g];
        proof {
            assert(groups@.map_values(|gr: Group| gr@)[g as int] == grp@);
        }
        let mut rows: Vec<(String, String, String)> = Vec::new();
        let mut j: usize = 0;
        while j < grp.rows.len()
            invariant
                j <= grp.rows@.len(),
                rows@.len() == j as int,
                forall|t: int| 0 <= t < grp@.rows.len() ==> (#[trigger] grp@.rows[t]).wf(),
                forall|t: int|
                    0 <= t < j as int ==> (#[trigger] rows@[t]).0@ == grp@.rows[t].country.name
                        && rows@[t].1@ == date_display(grp@.rows[t].start) && rows@[t].2@
                        == end_display(grp@.rows[t].end),
            decreases grp.rows@.len() - j,
        {
            let v = &grp.rows[j];
            proof {
                assert(grp@.rows[j as int] == v@);
            }
            let name = v.country.name.clone();
            let start = v.start_to_string();
            let end = v.end_to_string();
            rows.push((name, start, end));
            j = j + 1;
        }
        r.push((grp.key.clone(), rows));
        g = g + 1;
    }
    r
}

} // verus!
