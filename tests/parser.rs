use mtracker::date::Date;
use mtracker::media::Media;
use mtracker::parser::{parse_prop, parse_tags, DecodeError};
use mtracker::text::IntError;

#[test]
fn parses_from_db_entry() {
    // Badly formatted on purpose
    let entry = "Forrest Gump
year:  1994
rating:2
tags: drama, romance,funny
last_seen: 2020-12-31
note:very long";

    let media = Media::from_db_entry(entry).unwrap();
    assert_eq!(media.name, "Forrest Gump");
    assert_eq!(media.year, Some(1994));
    assert_eq!(media.rating, Some(2));
    assert_eq!(media.note, "very long");
    assert_eq!(media.last_seen, Date::from_ymd_opt(2020, 12, 31));
    assert_eq!(media.tags, vec!["drama", "romance", "funny"]);

    // Bad entry, but technically valid
    let entry = "year: 2009
";
    let media = Media::from_db_entry(entry).unwrap();
    assert_eq!(media.name, "year: 2009");
    assert_eq!(media.year, None);
    assert_eq!(media.rating, None);
    assert_eq!(media.note, String::new());
    assert_eq!(media.last_seen, None);
    assert!(media.tags.is_empty());
}

#[test]
fn aborts_gracefully() {
    // Empty entry
    let entry = "";
    let error = Media::from_db_entry(entry).unwrap_err();
    assert!(error.message().starts_with("entry can't be empty"));

    // Illegal empty lines in between
    let entry = "foobar

year: 2009";
    let error = Media::from_db_entry(entry).unwrap_err();
    assert!(error.message().starts_with("illegal empty line"));

    // Not a number
    let entry = "foobar
year: invalid";
    let error = Media::from_db_entry(entry).unwrap_err();
    assert!(error.message().starts_with("failed to parse year"));

    // Invalid number
    let entry = "foobar
rating: -4";
    let error = Media::from_db_entry(entry).unwrap_err();
    assert!(error.message().starts_with("failed to parse rating"));

    // Non-existing key
    let entry = "foobar
foo: bar";
    let error = Media::from_db_entry(entry).unwrap_err();
    assert!(error.message().starts_with("unknown key"));

    // Empty tags
    let entry = "foobar
tags: a,";
    let error = Media::from_db_entry(entry).unwrap_err();
    assert!(error.message().starts_with("empty tag"));

    // Prop without delimiter
    let entry = "foobar
name value";
    let error = Media::from_db_entry(entry).unwrap_err();
    assert!(error.message().starts_with("delimiter missing"));
}

#[test]
fn decode_errors_carry_their_details() {
    match Media::from_db_entry("") {
        Err(DecodeError::EmptyEntry) => {}
        other => panic!("unexpected {:?}", other),
    }
    match Media::from_db_entry("foobar\nname value") {
        Err(DecodeError::MissingDelimiter { line }) => assert_eq!(line, "name value"),
        other => panic!("unexpected {:?}", other),
    }
    match Media::from_db_entry("foobar\nfoo: bar") {
        Err(DecodeError::UnknownKey { key }) => assert_eq!(key, "foo"),
        other => panic!("unexpected {:?}", other),
    }
    match Media::from_db_entry("foobar\nrating: -4") {
        Err(DecodeError::PropertyParse { property, reason }) => {
            assert_eq!(property, "rating");
            assert_eq!(reason, IntError::InvalidDigit);
        }
        other => panic!("unexpected {:?}", other),
    }
    match Media::from_db_entry("foobar\nrating: 256") {
        Err(DecodeError::PropertyParse { property, reason }) => {
            assert_eq!(property, "rating");
            assert_eq!(reason, IntError::PosOverflow);
        }
        other => panic!("unexpected {:?}", other),
    }
    match Media::from_db_entry("foobar\nyear:") {
        Err(DecodeError::PropertyParse { property, reason }) => {
            assert_eq!(property, "year");
            assert_eq!(reason, IntError::Empty);
        }
        other => panic!("unexpected {:?}", other),
    }
    match Media::from_db_entry("foobar\ntags: a,") {
        Err(DecodeError::EmptyTag) => {}
        other => panic!("unexpected {:?}", other),
    }
    match Media::from_db_entry("foobar\n\nyear: 2009") {
        Err(DecodeError::IllegalBlankLine) => {}
        other => panic!("unexpected {:?}", other),
    }
    match Media::from_db_entry("foobar\nlast_seen: 2023-02-30") {
        Err(DecodeError::DateParse { value }) => assert_eq!(value, "2023-02-30"),
        other => panic!("unexpected {:?}", other),
    }
    let error = Media::from_db_entry("foobar\nlast_seen: yesterday").unwrap_err();
    assert_eq!(
        error.message(),
        "failed to parse last_seen: yesterday\nExpected format: 2024-12-31"
    );
    let error = Media::from_db_entry("foobar\nrating: -4").unwrap_err();
    assert_eq!(error.message(), "failed to parse rating: invalid digit found in string");
}

#[test]
fn media_to_db_entry() {
    let media = Media {
        name: "Forrest Gump".into(),
        year: Some(1994),
        rating: Some(2),
        tags: vec!["drama".into(), "romance".into()],
        note: "very long".into(),
        last_seen: Date::from_ymd_opt(2024, 06, 12),
    };

    let expected = "Forrest Gump
year: 1994
rating: 2
tags: drama, romance
note: very long
last_seen: 2024-06-12";

    assert_eq!(media.to_db_entry(), expected);
}

#[test]
fn encoding_round_trips() {
    let media = Media {
        name: "Stalker".into(),
        year: Some(1979),
        rating: Some(10),
        tags: vec!["slow".into(), "sci-fi".into(), "watchlist".into()],
        note: "zone: the room".into(),
        last_seen: Date::from_ymd_opt(2000, 2, 29),
    };
    let back = Media::from_db_entry(media.to_db_entry().as_str()).unwrap();
    assert_eq!(back.name, media.name);
    assert_eq!(back.year, media.year);
    assert_eq!(back.rating, media.rating);
    assert_eq!(back.tags, media.tags);
    assert_eq!(back.note, media.note);
    assert_eq!(back.last_seen, media.last_seen);

    let bare = Media::new("Solaris", None);
    assert_eq!(bare.to_db_entry(), "Solaris");
    let back = Media::from_db_entry(bare.to_db_entry().as_str()).unwrap();
    assert_eq!(back.name, "Solaris");
    assert_eq!(back.year, None);
    assert!(back.tags.is_empty());
}

#[test]
fn dates_outside_four_digits_are_signed() {
    let mut media = Media::new("Far future", None);
    media.last_seen = Date::from_ymd_opt(10000, 1, 2);
    assert_eq!(media.to_db_entry(), "Far future\nlast_seen: +10000-01-02");
    media.last_seen = Date::from_ymd_opt(-5, 3, 4);
    assert_eq!(media.to_db_entry(), "Far future\nlast_seen: -0005-03-04");
    media.last_seen = Date::from_ymd_opt(33, 3, 4);
    assert_eq!(media.to_db_entry(), "Far future\nlast_seen: 0033-03-04");
}

#[test]
fn calendar_dates_are_checked() {
    assert!(Date::from_ymd_opt(2024, 2, 29).is_some());
    assert!(Date::from_ymd_opt(2023, 2, 29).is_none());
    assert!(Date::from_ymd_opt(1900, 2, 29).is_none());
    assert!(Date::from_ymd_opt(2000, 2, 29).is_some());
    assert!(Date::from_ymd_opt(2024, 4, 31).is_none());
    assert!(Date::from_ymd_opt(2024, 13, 1).is_none());
    assert!(Date::from_ymd_opt(2024, 1, 0).is_none());
    assert_eq!(
        Date::parse("1999-07-04"),
        Some(Date { year: 1999, month: 7, day: 4 })
    );
    assert_eq!(Date::parse("1999-02-30"), None);
    assert_eq!(Date::parse("July 4th"), None);
}

#[test]
fn properties_are_parsed_like_unsigned_integers() {
    assert_eq!(parse_prop("year", "+1999", 65535).unwrap(), 1999);
    assert_eq!(parse_prop("year", "65535", 65535).unwrap(), 65535);
    assert!(parse_prop("year", "65536", 65535).is_err());
    assert!(parse_prop("rating", "+", 255).is_err());
    assert!(parse_prop("rating", "", 255).is_err());
    assert_eq!(parse_prop("rating", "007", 255).unwrap(), 7);
}

#[test]
fn tags_are_split_and_trimmed() {
    let tags = parse_tags("a , b,c").unwrap();
    assert_eq!(tags, vec!["a", "b", "c"]);
    assert!(parse_tags("").is_err());
    assert!(parse_tags("a,,b").is_err());
    assert!(parse_tags(" , a").is_err());
}
