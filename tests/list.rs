use mtracker::list::{get_weight, get_year_min_max, list_order, max_rating, YearFilterError};
use mtracker::media::Media;

#[test]
fn year_min_max_works() {
    // Valid input
    assert_eq!(get_year_min_max("2023").unwrap(), (2023, 2023));
    assert_eq!(get_year_min_max("2024").unwrap(), (2024, 2024));
    assert_eq!(get_year_min_max("=2024").unwrap(), (2024, 2024));
    assert_eq!(get_year_min_max("==2024").unwrap(), (2024, 2024));
    assert_eq!(get_year_min_max(">=2020").unwrap(), (2020, 9999));
    assert_eq!(get_year_min_max(">2020").unwrap(), (2021, 9999));
    assert_eq!(get_year_min_max("+2020").unwrap(), (2020, 9999));
    assert_eq!(get_year_min_max("<=2020").unwrap(), (0, 2020));
    assert_eq!(get_year_min_max("<2020").unwrap(), (0, 2019));
    assert_eq!(get_year_min_max("-2020").unwrap(), (0, 2020));
    assert_eq!(get_year_min_max("2010-2020").unwrap(), (2010, 2020));
    assert_eq!(get_year_min_max("2020-2010").unwrap(), (2010, 2020));

    // Invalid input
    assert!(get_year_min_max("invalid").is_err());
    assert!(get_year_min_max("#2024").is_err());
    assert!(get_year_min_max("20244").is_err());
}

#[test]
fn year_filter_shapes() {
    assert_eq!(get_year_min_max("2020-").unwrap(), (2020, 9999));
    assert_eq!(get_year_min_max("1999-2010").unwrap(), (1999, 2010));
    assert_eq!(get_year_min_max("#2024"), Err(YearFilterError::InvalidComparison));
    assert_eq!(get_year_min_max("20244"), Err(YearFilterError::InvalidComparison));
    assert_eq!(get_year_min_max(">20x4"), Err(YearFilterError::InvalidNumber));
    assert_eq!(get_year_min_max("foob"), Err(YearFilterError::InvalidNumber));
    assert_eq!(get_year_min_max("invalid"), Err(YearFilterError::InvalidYear));
    assert_eq!(get_year_min_max("<0000"), Err(YearFilterError::EmptyRange));
    assert_eq!(get_year_min_max("2010x2020"), Err(YearFilterError::InvalidYear));
    assert_eq!(get_year_min_max("!=2020"), Err(YearFilterError::InvalidComparison));
}

fn item(name: &str, year: Option<u16>, rating: Option<u8>, tags: &[&str]) -> Media {
    let mut m = Media::new(name, year);
    m.rating = rating;
    for t in tags {
        m.add_tag(t);
    }
    m
}

#[test]
fn weights_follow_rating_and_watchlist() {
    assert_eq!(get_weight(&item("A", None, None, &[])), 1);
    assert_eq!(get_weight(&item("B", None, Some(2), &[])), 3);
    assert_eq!(get_weight(&item("C", None, Some(0), &["watchlist"])), 1001);
    assert_eq!(get_weight(&item("D", None, Some(255), &["watchlist"])), 1256);
}

#[test]
fn watchlist_dominates_the_order() {
    let items = vec![
        item("A", None, None, &[]),
        item("B", None, Some(2), &[]),
        item("C", None, Some(0), &["watchlist"]),
    ];
    let order = list_order(&items, &vec![], None).unwrap();
    assert_eq!(order, vec![2, 1, 0]);
}

#[test]
fn ties_go_by_lowercase_name_then_input_order() {
    let items = vec![
        item("Banana", None, Some(3), &[]),
        item("apple", None, Some(3), &[]),
        item("Cherry", Some(2001), Some(3), &[]),
        item("cherry", Some(1999), Some(3), &[]),
        item("Zed", None, Some(4), &[]),
    ];
    let order = list_order(&items, &vec![], None).unwrap();
    assert_eq!(order, vec![4, 1, 0, 2, 3]);
}

#[test]
fn filters_are_conjunctive() {
    let items = vec![
        item("A", Some(2021), None, &["drama"]),
        item("B", Some(2019), None, &["drama"]),
        item("C", Some(2021), None, &["comedy"]),
        item("D", None, None, &["drama"]),
        item("E", Some(2022), Some(1), &["drama", "war"]),
    ];
    let tags = vec!["drama".to_string()];
    let order = list_order(&items, &tags, Some("2020-2022")).unwrap();
    assert_eq!(order, vec![4, 0]);

    let order = list_order(&items, &vec![], Some("1900-2100")).unwrap();
    assert!(!order.contains(&3));

    let unrated = vec!["unrated".to_string()];
    let order = list_order(&items, &unrated, None).unwrap();
    assert_eq!(order, vec![0, 1, 2, 3]);
    let rated = vec!["rated".to_string(), "war".to_string()];
    let order = list_order(&items, &rated, None).unwrap();
    assert_eq!(order, vec![4]);

    assert_eq!(
        list_order(&items, &tags, Some("20x0")),
        Err(YearFilterError::InvalidNumber)
    );
}

#[test]
fn max_rating_looks_at_every_item() {
    let items = vec![
        item("A", None, Some(3), &[]),
        item("B", None, None, &[]),
        item("C", None, Some(7), &[]),
    ];
    assert_eq!(max_rating(&items), 7);
    assert_eq!(max_rating(&vec![]), 0);
}
