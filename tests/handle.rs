use mtracker::handle::Handle;

#[test]
fn parses_from_user_input() {
    let handle = Handle::from_user_input("Alien (1979)");
    assert_eq!(handle.name, "Alien");
    assert_eq!(handle.year, Some(1979));

    let handle = Handle::from_user_input("Alien");
    assert_eq!(handle.name, "Alien");
    assert_eq!(handle.year, None);
}

#[test]
fn handle_without_four_digit_year_is_a_name() {
    let handle = Handle::from_user_input("Alien (79)");
    assert_eq!(handle.name, "Alien (79)");
    assert_eq!(handle.year, None);

    let handle = Handle::from_user_input(" (1979)");
    assert_eq!(handle.name, " (1979)");
    assert_eq!(handle.year, None);

    let handle = Handle::from_user_input("Alien (19x9)");
    assert_eq!(handle.name, "Alien (19x9)");
    assert_eq!(handle.year, None);
}

#[test]
fn handle_text_round_trips() {
    let handle = Handle { name: "The Thing".to_string(), year: Some(1982) };
    let text = handle.to_string();
    assert_eq!(text, "The Thing (1982)");
    let back = Handle::from_user_input(text.as_str());
    assert_eq!(back.name, "The Thing");
    assert_eq!(back.year, Some(1982));

    let handle = Handle { name: "Heat".to_string(), year: None };
    assert_eq!(handle.to_string(), "Heat");
    let back = Handle::from_user_input(handle.to_string().as_str());
    assert_eq!(back.name, "Heat");
    assert_eq!(back.year, None);
}
