use mtracker::handle::Handle;
use mtracker::media::Media;

#[test]
fn tags_are_added_once_and_removed() {
    let mut m = Media::new("Alien", Some(1979));
    m.add_tag("horror");
    m.add_tag("sci-fi");
    m.add_tag("horror");
    assert_eq!(m.tags, vec!["horror", "sci-fi"]);
    assert!(m.has_tag("sci-fi"));
    assert!(m.remove_tag("horror").is_ok());
    assert_eq!(m.tags, vec!["sci-fi"]);
    assert!(m.remove_tag("horror").is_err());
}

#[test]
fn virtual_tags_follow_the_rating() {
    let mut m = Media::new("Alien", Some(1979));
    assert!(m.matches_tag("unrated"));
    assert!(!m.matches_tag("rated"));
    m.rating = Some(0);
    assert!(m.matches_tag("rated"));
    assert!(!m.matches_tag("unrated"));
    assert!(!m.has_tag("rated"));
}

#[test]
fn watchlist_and_handles() {
    let mut m = Media::from_handle(&Handle::from_user_input("Alien (1979)"));
    assert!(!m.on_watchlist());
    m.add_tag("watchlist");
    assert!(m.on_watchlist());
    assert!(m.matches_handle(&Handle::from_user_input("Alien (1979)")));
    assert!(!m.matches_handle(&Handle::from_user_input("Alien")));
    assert!(!m.matches_handle(&Handle::from_user_input("alien (1979)")));
}
