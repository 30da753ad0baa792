use country_visits::country::{Country, Visit};
use country_visits::date::{date_to_string, year_to_string, DateTime};
use country_visits::geometry::{Coord, Polygon, Rect};

fn country(name: &str) -> Country {
    Country { name: name.to_string(), bb: Rect::zero(), shapes: Vec::new() }
}

fn dt(year: u16, month: u8, day: u8) -> DateTime {
    DateTime::new(year, month, day, 0, 0, 0)
}

#[test]
fn default_country_is_the_sentinel() {
    let c = Country::default();
    assert_eq!(c.name, "");
    assert_eq!(c.bb.min, Coord { x: 0, y: 0 });
    assert_eq!(c.bb.max, Coord { x: 0, y: 0 });
    assert!(c.shapes.is_empty());
}

#[test]
fn new_visit_stores_its_fields() {
    let v = Visit::new(country("France"), dt(2021, 7, 1), Some(dt(2021, 7, 10)));
    assert_eq!(v.country.name, "France");
    assert_eq!(v.start, dt(2021, 7, 1));
    assert_eq!(v.end, Some(dt(2021, 7, 10)));
}

#[test]
fn start_formats_as_day_month_year() {
    let v = Visit::new(country("France"), dt(2021, 7, 5), None);
    assert_eq!(v.start_to_string(), "05 Jul 2021");
}

#[test]
fn end_of_open_visit_formats_empty() {
    let v = Visit::new(country("Italy"), dt(2020, 1, 5), None);
    assert_eq!(v.end_to_string(), "");
}

#[test]
fn end_formats_like_start() {
    let v = Visit::new(country("France"), dt(2021, 7, 1), Some(dt(2021, 7, 10)));
    assert_eq!(v.end_to_string(), "10 Jul 2021");
}

#[test]
fn every_month_abbreviation() {
    let expected = [
        "Jan", "Feb", "Mar", "Apr", "May", "Jun", "Jul", "Aug", "Sep", "Oct", "Nov", "Dec",
    ];
    for m in 1..=12u8 {
        let s = date_to_string(&dt(2000, m, 15));
        assert_eq!(s, format!("15 {} 2000", expected[(m - 1) as usize]));
    }
}

#[test]
fn days_and_years_are_zero_padded() {
    assert_eq!(date_to_string(&dt(987, 3, 4)), "04 Mar 0987");
    assert_eq!(year_to_string(&dt(987, 3, 4)), "0987");
    assert_eq!(year_to_string(&dt(2021, 7, 5)), "2021");
}

#[test]
fn inverted_interval_is_accepted_and_formats_literally() {
    let v = Visit::new(country("Spain"), dt(2022, 5, 20), Some(dt(2021, 1, 1)));
    assert_eq!(v.start_to_string(), "20 May 2022");
    assert_eq!(v.end_to_string(), "01 Jan 2021");
}

#[test]
fn cloned_visit_keeps_the_data() {
    let shape = Polygon { points: vec![Coord { x: 1, y: 2 }, Coord { x: 3, y: 4 }] };
    let c = Country {
        name: "Norway".to_string(),
        bb: Rect { min: Coord { x: -1, y: -2 }, max: Coord { x: 5, y: 6 } },
        shapes: vec![shape],
    };
    let v = Visit::new(c, dt(2019, 12, 31), None);
    let w = v.clone();
    assert_eq!(w.country.name, "Norway");
    assert_eq!(w.country.bb.min, Coord { x: -1, y: -2 });
    assert_eq!(w.country.shapes.len(), 1);
    assert_eq!(w.country.shapes[0].points, vec![Coord { x: 1, y: 2 }, Coord { x: 3, y: 4 }]);
    assert_eq!(w.start, v.start);
    assert_eq!(w.end, None);
}
