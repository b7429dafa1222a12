use mtracker::handle::Handle;
use mtracker::media::Media;
use mtracker::repo::{Repo, StoreError};

#[test]
fn reads() {
    let content = "Forrest Gump
year: 1994

Alien
year: 1979


Aliens
year: 1986



Alien 3
year: 1992




The Terminator
year: 1984
";

    let repo = Repo::new(content).unwrap();
    let items = repo.get_all();

    assert_eq!(items.len(), 5);

    assert_eq!(items[0].name, "Forrest Gump");
    assert_eq!(items[0].year, Some(1994));

    assert_eq!(items[1].name, "Alien");
    assert_eq!(items[1].year, Some(1979));

    assert_eq!(items[2].name, "Aliens");
    assert_eq!(items[2].year, Some(1986));

    assert_eq!(items[3].name, "Alien 3");
    assert_eq!(items[3].year, Some(1992));

    assert_eq!(items[4].name, "The Terminator");
    assert_eq!(items[4].year, Some(1984));
}

#[test]
fn writes() {
    let mut repo = Repo::new("").unwrap();
    repo.add(Media::new("Forrest Gump", Some(1994))).ok();
    repo.add(Media::new("Alien", Some(1979))).ok();

    assert_eq!(
        repo.to_db_text(),
        "Forrest Gump
year: 1994

Alien
year: 1979"
    );
}

#[test]
fn empty_text_holds_no_items() {
    assert_eq!(Repo::new("").unwrap().get_all().len(), 0);
    assert_eq!(Repo::new("\n\n \n\n").unwrap().get_all().len(), 0);
    assert_eq!(Repo::new("").unwrap().to_db_text(), "");
}

#[test]
fn load_stops_at_the_first_bad_block() {
    let content = "Alien\nyear: 1979\n\nBad\nfoo: bar\n\nWorse\nrating: x";
    assert!(Repo::new(content).unwrap_err().message().starts_with("unknown key"));
}

#[test]
fn lookup_update_and_remove() {
    let mut repo = Repo::new("Alien\nyear: 1979\n\nAlien\nyear: 1986\n\nHeat").unwrap();
    let handle = Handle::from_user_input("Alien (1986)");
    let m = repo.get(&handle).unwrap();
    assert_eq!(m.year, Some(1986));
    m.rating = Some(9);
    assert_eq!(repo.get_all()[1].rating, Some(9));

    assert!(repo.get(&Handle::from_user_input("Alien")).is_none());

    let created = repo.get_or_create(&Handle::from_user_input("Ronin (1998)"));
    created.add_tag("action");
    assert_eq!(repo.get_all().len(), 4);
    assert_eq!(repo.get_all()[3].tags, vec!["action"]);

    let existing = repo.get_or_create(&Handle::from_user_input("Heat"));
    existing.note = "long".to_string();
    assert_eq!(repo.get_all().len(), 4);
    assert_eq!(repo.get_all()[2].note, "long");

    let result = repo.update(&Handle::from_user_input("Heat"), |mut m| {
        m.rating = Some(5);
        m
    });
    assert_eq!(result, Ok(()));
    assert_eq!(repo.get_all()[2].rating, Some(5));
    assert_eq!(
        repo.update(&Handle::from_user_input("Nope"), |m| m),
        Err(StoreError::ItemNotFound)
    );

    assert_eq!(repo.remove_by_handle(&Handle::from_user_input("Alien (1979)")), Ok(()));
    let names: Vec<&str> = repo.get_all().iter().map(|m| m.name.as_str()).collect();
    assert_eq!(names, vec!["Ronin", "Alien", "Heat"]);
    assert_eq!(
        repo.remove_by_handle(&Handle::from_user_input("Alien (1979)")),
        Err(StoreError::ItemNotFound)
    );
}

#[test]
fn written_text_reads_back() {
    let text = "Alien\nyear: 1979\ntags: horror, sci-fi\n\nHeat\nrating: 8\nnote: long";
    let repo = Repo::new(text).unwrap();
    assert_eq!(repo.to_db_text(), text);
}
