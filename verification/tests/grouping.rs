use country_visits::country::{Country, Visit, Visits};
use country_visits::date::DateTime;
use country_visits::geometry::Rect;
use country_visits::grouping::{group_by_country, group_by_year, Group};
use country_visits::lex::str_lt;
use country_visits::model::{country_rows, year_rows};

fn country(name: &str) -> Country {
    Country { name: name.to_string(), bb: Rect::zero(), shapes: Vec::new() }
}

fn dt(year: u16, month: u8, day: u8) -> DateTime {
    DateTime::new(year, month, day, 0, 0, 0)
}

fn scenario() -> Visits {
    vec![
        Visit::new(country("France"), dt(2021, 7, 1), Some(dt(2021, 7, 10))),
        Visit::new(country("Italy"), dt(2020, 1, 5), None),
        Visit::new(country("France"), dt(2022, 3, 1), Some(dt(2022, 3, 5))),
    ]
}

fn keys(groups: &[Group]) -> Vec<String> {
    groups.iter().map(|g| g.key.clone()).collect()
}

fn total_rows(groups: &[Group]) -> usize {
    groups.iter().map(|g| g.rows.len()).sum()
}

#[test]
fn grouping_completeness() {
    let visits = scenario();
    assert_eq!(total_rows(&group_by_country(&visits)), visits.len());
    assert_eq!(total_rows(&group_by_year(&visits)), visits.len());
}

#[test]
fn empty_input_yields_empty_result() {
    let visits: Visits = Vec::new();
    assert!(group_by_country(&visits).is_empty());
    assert!(group_by_year(&visits).is_empty());
}

#[test]
fn keys_are_sorted_ascending() {
    let visits = vec![
        Visit::new(country("Zambia"), dt(2021, 1, 1), None),
        Visit::new(country("Albania"), dt(2021, 2, 1), None),
    ];
    let groups = group_by_country(&visits);
    assert_eq!(keys(&groups), vec!["Albania".to_string(), "Zambia".to_string()]);
}

#[test]
fn rows_keep_input_order_within_a_group() {
    let visits = scenario();
    let groups = group_by_country(&visits);
    let france = &groups[0];
    assert_eq!(france.key, "France");
    assert_eq!(france.rows.len(), 2);
    assert_eq!(france.rows[0].start, dt(2021, 7, 1));
    assert_eq!(france.rows[1].start, dt(2022, 3, 1));
}

#[test]
fn grouping_twice_gives_identical_results() {
    let visits = scenario();
    let a = group_by_country(&visits);
    let b = group_by_country(&visits);
    assert_eq!(keys(&a), keys(&b));
    assert_eq!(a.len(), b.len());
    for (ga, gb) in a.iter().zip(b.iter()) {
        assert_eq!(ga.rows.len(), gb.rows.len());
        for (va, vb) in ga.rows.iter().zip(gb.rows.iter()) {
            assert_eq!(va.country.name, vb.country.name);
            assert_eq!(va.start, vb.start);
            assert_eq!(va.end, vb.end);
        }
    }
}

#[test]
fn end_to_end_scenario() {
    let visits = scenario();

    let by_country = country_rows(&group_by_country(&visits));
    assert_eq!(by_country.len(), 2);
    assert_eq!(by_country[0].0, "France");
    assert_eq!(
        by_country[0].1,
        vec![
            ("01 Jul 2021".to_string(), "10 Jul 2021".to_string()),
            ("01 Mar 2022".to_string(), "05 Mar 2022".to_string()),
        ]
    );
    assert_eq!(by_country[1].0, "Italy");
    assert_eq!(by_country[1].1, vec![("05 Jan 2020".to_string(), "".to_string())]);

    let by_year = year_rows(&group_by_year(&visits));
    assert_eq!(by_year.len(), 3);
    assert_eq!(by_year[0].0, "2020");
    assert_eq!(
        by_year[0].1,
        vec![("Italy".to_string(), "05 Jan 2020".to_string(), "".to_string())]
    );
    assert_eq!(by_year[1].0, "2021");
    assert_eq!(
        by_year[1].1,
        vec![("France".to_string(), "01 Jul 2021".to_string(), "10 Jul 2021".to_string())]
    );
    assert_eq!(by_year[2].0, "2022");
    assert_eq!(
        by_year[2].1,
        vec![("France".to_string(), "01 Mar 2022".to_string(), "05 Mar 2022".to_string())]
    );
}

#[test]
fn identical_visits_are_not_deduplicated() {
    let visits = vec![
        Visit::new(country("Japan"), dt(2023, 4, 1), Some(dt(2023, 4, 14))),
        Visit::new(country("Japan"), dt(2023, 4, 1), Some(dt(2023, 4, 14))),
    ];
    let groups = group_by_country(&visits);
    assert_eq!(groups.len(), 1);
    assert_eq!(groups[0].rows.len(), 2);
}

#[test]
fn year_keys_are_four_digits_in_numeric_order() {
    let visits = vec![
        Visit::new(country("Greece"), dt(987, 6, 1), None),
        Visit::new(country("Greece"), dt(2021, 6, 1), None),
        Visit::new(country("Greece"), dt(1999, 6, 1), None),
    ];
    let groups = group_by_year(&visits);
    assert_eq!(
        keys(&groups),
        vec!["0987".to_string(), "1999".to_string(), "2021".to_string()]
    );
}

#[test]
fn inverted_interval_groups_by_its_literal_start_year() {
    let visits = vec![Visit::new(country("Spain"), dt(2022, 5, 20), Some(dt(2021, 1, 1)))];
    let groups = group_by_year(&visits);
    assert_eq!(keys(&groups), vec!["2022".to_string()]);
}

#[test]
fn string_order_is_lexicographic() {
    assert!(str_lt("Albania", "Zambia"));
    assert!(!str_lt("Zambia", "Albania"));
    assert!(str_lt("Alb", "Albania"));
    assert!(!str_lt("Albania", "Albania"));
    assert!(str_lt("", "A"));
    assert!(!str_lt("", ""));
}
