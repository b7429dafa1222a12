use mtracker::commands::{add_item, rate_item, remove_item, replace_item, unrate_item, CommandError};
use mtracker::format::tag_counts;
use mtracker::handle::Handle;
use mtracker::media::Media;
use mtracker::repo::Repo;

fn repo() -> Repo {
    Repo::new("Alien\nyear: 1979\ntags: horror, watchlist\n\nHeat\nrating: 8\nnote: long").unwrap()
}

#[test]
fn add_creates_tags_and_notes() {
    let mut repo = repo();
    let handle = Handle::from_user_input("Ronin (1998)");
    let tags = vec!["action".to_string(), "action".to_string()];
    let report = add_item(&mut repo, &handle, &tags, Some("car chases".to_string())).unwrap();
    assert!(report.created);
    assert_eq!(report.added, vec![true, false]);
    let item = &repo.get_all()[2];
    assert_eq!(item.name, "Ronin");
    assert_eq!(item.year, Some(1998));
    assert_eq!(item.tags, vec!["action"]);
    assert_eq!(item.note, "car chases");
}

#[test]
fn add_refuses_what_it_cannot_do() {
    let mut repo = repo();
    let alien = Handle::from_user_input("Alien (1979)");
    match add_item(&mut repo, &alien, &vec![], None) {
        Err(CommandError::ItemAlreadyExists) => {}
        other => panic!("unexpected {:?}", other),
    }
    match add_item(&mut repo, &alien, &vec![], Some("two\nlines".to_string())) {
        Err(CommandError::NoteHasNewline) => {}
        other => panic!("unexpected {:?}", other),
    }
    let report = add_item(&mut repo, &alien, &vec!["horror".to_string()], None).unwrap();
    assert!(!report.created);
    assert_eq!(report.added, vec![false]);
    let heat = Handle::from_user_input("Heat");
    match add_item(&mut repo, &heat, &vec![], Some("short".to_string())) {
        Err(CommandError::NoteAlreadySet) => {}
        other => panic!("unexpected {:?}", other),
    }
    assert_eq!(repo.get_all()[1].note, "long");
    let report = add_item(&mut repo, &alien, &vec![], Some("in space".to_string())).unwrap();
    assert!(!report.created);
    assert_eq!(repo.get_all()[0].note, "in space");
}

#[test]
fn rating_takes_items_off_the_watchlist() {
    let mut repo = repo();
    let report = rate_item(&mut repo, &Handle::from_user_input("Alien (1979)"), 9);
    assert!(!report.created);
    assert!(report.unwatched);
    assert_eq!(repo.get_all()[0].rating, Some(9));
    assert_eq!(repo.get_all()[0].tags, vec!["horror"]);

    let report = rate_item(&mut repo, &Handle::from_user_input("Thief (1981)"), 7);
    assert!(report.created);
    assert!(!report.unwatched);
    assert_eq!(repo.get_all()[2].rating, Some(7));

    assert!(!unrate_item(&mut repo, &Handle::from_user_input("Heat")));
    assert_eq!(repo.get_all()[1].rating, None);
    assert!(unrate_item(&mut repo, &Handle::from_user_input("Collateral")));
    assert_eq!(repo.get_all().len(), 4);
}

#[test]
fn removing_items_and_tags() {
    let mut repo = repo();
    let alien = Handle::from_user_input("Alien (1979)");
    let found = remove_item(&mut repo, &alien, &vec!["watchlist".to_string(), "drama".to_string()]).unwrap();
    assert_eq!(found, vec![true, false]);
    assert_eq!(repo.get_all()[0].tags, vec!["horror"]);
    assert_eq!(remove_item(&mut repo, &alien, &vec![]).unwrap(), Vec::<bool>::new());
    assert_eq!(repo.get_all().len(), 1);
    match remove_item(&mut repo, &alien, &vec![]) {
        Err(CommandError::ItemNotFound) => {}
        other => panic!("unexpected {:?}", other),
    }
}

#[test]
fn replacing_an_item_from_its_text() {
    let mut repo = repo();
    let alien = Handle::from_user_input("Alien (1979)");
    replace_item(&mut repo, &alien, "Alien\nyear: 1979\nrating: 10").unwrap();
    let names: Vec<&str> = repo.get_all().iter().map(|m| m.name.as_str()).collect();
    assert_eq!(names, vec!["Heat", "Alien"]);
    assert_eq!(repo.get_all()[1].rating, Some(10));
    match replace_item(&mut repo, &alien, "Alien\nrating: ten") {
        Err(CommandError::Decode(e)) => assert!(e.message().starts_with("failed to parse rating")),
        other => panic!("unexpected {:?}", other),
    }
    match replace_item(&mut repo, &Handle::from_user_input("Nope"), "Nope") {
        Err(CommandError::ItemNotFound) => {}
        other => panic!("unexpected {:?}", other),
    }
    assert_eq!(repo.get_all().len(), 2);
}

#[test]
fn tags_are_counted_most_frequent_first() {
    let mut a = Media::new("A", None);
    a.add_tag("drama");
    a.add_tag("war");
    let mut b = Media::new("B", None);
    b.add_tag("war");
    let mut c = Media::new("C", None);
    c.add_tag("comedy");
    c.add_tag("war");
    c.add_tag("drama");
    let counts = tag_counts(&vec![a, b, c]);
    assert_eq!(counts.len(), 3);
    assert_eq!(counts[0], ("war".to_string(), 3));
    assert_eq!(counts[1], ("drama".to_string(), 2));
    assert_eq!(counts[2], ("comedy".to_string(), 1));
    assert!(tag_counts(&vec![]).is_empty());
}

#[test]
fn rating_bars_scale_to_the_maximum() {
    let mut m = Media::new("A", None);
    assert_eq!(m.rating_string(3), "???");
    m.rating = Some(2);
    assert_eq!(m.rating_string(4), "++--");
    m.rating = Some(0);
    assert_eq!(m.rating_string(2), "--");
    assert_eq!(m.rating_string(0), "");
}
