//! The record format: one item as a block of text.
//!
//! The first line is the name; each further line is `key: value` with the
//! keys `year`, `rating`, `tags`, `note` and `last_seen`, in any order. A
//! blank line inside a block is refused.
use vstd::prelude::*;
use crate::date::{date_text, iso_date, Date};
use crate::media::{bare_item, Media, MediaView};
use crate::text::{
    chars_eq, chars_of, decimal, find_char, index_of, lines, lines_of, parse_uint, parse_uint_chars,
    push_decimal, push_str, slice_of, split_char, split_on, string_of, string_views, trim,
    trim_chars, views, int_error_text, IntError,
};

verus! {

/// Why a block of text is not a record.
#[derive(Debug)]
pub enum DecodeError {
    EmptyEntry,
    IllegalBlankLine,
    MissingDelimiter { line: String },
    UnknownKey { key: String },
    PropertyParse { property: String, reason: IntError },
    EmptyTag,
    DateParse { value: String },
}

/// A decode error as plain values.
pub enum DecodeErrorView {
    EmptyEntry,
    IllegalBlankLine,
    MissingDelimiter(Seq<char>),
    UnknownKey(Seq<char>),
    PropertyParse(Seq<char>, IntError),
    EmptyTag,
    DateParse(Seq<char>),
}

impl View for DecodeError {
    type V = DecodeErrorView;

    open spec fn view(&self) -> DecodeErrorView {
        match self {
            DecodeError::EmptyEntry => DecodeErrorView::EmptyEntry,
            DecodeError::IllegalBlankLine => DecodeErrorView::IllegalBlankLine,
            DecodeError::MissingDelimiter { line } => DecodeErrorView::MissingDelimiter(line@),
            DecodeError::UnknownKey { key } => DecodeErrorView::UnknownKey(key@),
            DecodeError::PropertyParse { property, reason } => DecodeErrorView::PropertyParse(
                property@,
                *reason,
            ),
            DecodeError::EmptyTag => DecodeErrorView::EmptyTag,
            DecodeError::DateParse { value } => DecodeErrorView::DateParse(value@),
        }
    }
}

/// What went wrong, in words.
pub open spec fn decode_error_text(e: DecodeErrorView) -> Seq<char> {
    match e {
        DecodeErrorView::EmptyEntry => "entry can't be empty"@,
        DecodeErrorView::IllegalBlankLine => "illegal empty line"@,
        DecodeErrorView::MissingDelimiter(line) => "delimiter missing: "@ + line,
        DecodeErrorView::UnknownKey(key) => "unknown key: "@ + key,
        DecodeErrorView::PropertyParse(p, r) => "failed to parse "@ + p + ": "@ + int_error_text(r),
        DecodeErrorView::EmptyTag => "empty tag"@,
        DecodeErrorView::DateParse(v) => "failed to parse last_seen: "@ + v
            + "\nExpected format: 2024-12-31"@,
    }
}

impl DecodeError {
    /// What went wrong, in words.
    pub fn message(&self) -> (r: String)
        ensures
            r@ == decode_error_text(self@),
    {
        match self {
            DecodeError::EmptyEntry => String::from_str("entry can't be empty"),
            DecodeError::IllegalBlankLine => String::from_str("illegal empty line"),
            DecodeError::MissingDelimiter { line } => {
                let mut s = String::from_str("delimiter missing: ");
                s.append(line.as_str());
                s
            },
            DecodeError::UnknownKey { key } => {
                let mut s = String::from_str("unknown key: ");
                s.append(key.as_str());
                s
            },
            DecodeError::PropertyParse { property, reason } => {
                let mut s = String::from_str("failed to parse ");
                s.append(property.as_str());
                s.append(": ");
                s.append(reason.describe());
                s
            },
            DecodeError::EmptyTag => String::from_str("empty tag"),
            DecodeError::DateParse { value } => {
                let mut s = String::from_str("failed to parse last_seen: ");
                s.append(value.as_str());
                s.append("\nExpected format: 2024-12-31");
                s
            },
        }
    }
}

pub open spec fn key_year() -> Seq<char> {
    seq!['y', 'e', 'a', 'r']
}

pub open spec fn key_rating() -> Seq<char> {
    seq!['r', 'a', 't', 'i', 'n', 'g']
}

pub open spec fn key_tags() -> Seq<char> {
    seq!['t', 'a', 'g', 's']
}

pub open spec fn key_note() -> Seq<char> {
    seq!['n', 'o', 't', 'e']
}

pub open spec fn key_last_seen() -> Seq<char> {
    seq!['l', 'a', 's', 't', '_', 's', 'e', 'e', 'n']
}

/// A numeric property `key` read from `value`, no larger than `max`.
pub open spec fn number_of(key: Seq<char>, value: Seq<char>, max: int) -> Result<
    int,
    DecodeErrorView,
> {
    match parse_uint(value, max) {
        Ok(v) => Ok(v),
        Err(e) => Err(DecodeErrorView::PropertyParse(key, e)),
    }
}

/// The tags of a `tags` value: its comma-separated pieces, each trimmed;
/// an empty piece is refused.
pub open spec fn tags_of(value: Seq<char>) -> Result<Seq<Seq<char>>, DecodeErrorView> {
    let pieces = split_on(value, ',').map_values(|p: Seq<char>| trim(p));
    if pieces.contains(Seq::<char>::empty()) {
        Err(DecodeErrorView::EmptyTag)
    } else {
        Ok(pieces)
    }
}

/// The date of a `last_seen` value.
pub open spec fn last_seen_of(value: Seq<char>) -> Result<Date, DecodeErrorView> {
    match iso_date(value) {
        Some(d) => Ok(d),
        None => Err(DecodeErrorView::DateParse(value)),
    }
}

/// The item `m` after reading one property line.
pub open spec fn apply_line(line: Seq<char>, m: MediaView) -> Result<MediaView, DecodeErrorView> {
    if line.len() == 0 {
        Err(DecodeErrorView::IllegalBlankLine)
    } else {
        let i = index_of(line, ':');
        if !(0 <= i < line.len()) {
            Err(DecodeErrorView::MissingDelimiter(line))
        } else {
            let key = line.take(i);
            let value = trim(line.skip(i + 1));
            if key == key_year() {
                match number_of(key, value, 65535) {
                    Ok(v) => Ok(MediaView { year: Some(v as u16), ..m }),
                    Err(e) => Err(e),
                }
            } else if key == key_rating() {
                match number_of(key, value, 255) {
                    Ok(v) => Ok(MediaView { rating: Some(v as u8), ..m }),
                    Err(e) => Err(e),
                }
            } else if key == key_tags() {
                match tags_of(value) {
                    Ok(t) => Ok(MediaView { tags: t, ..m }),
                    Err(e) => Err(e),
                }
            } else if key == key_note() {
                Ok(MediaView { note: value, ..m })
            } else if key == key_last_seen() {
                match last_seen_of(value) {
                    Ok(d) => Ok(MediaView { last_seen: Some(d), ..m }),
                    Err(e) => Err(e),
                }
            } else {
                Err(DecodeErrorView::UnknownKey(key))
            }
        }
    }
}

/// The item `m` after reading the property lines `ls` in order; the first
/// failing line decides the error.
pub open spec fn apply_lines(ls: Seq<Seq<char>>, m: MediaView) -> Result<
    MediaView,
    DecodeErrorView,
>
    decreases ls.len(),
{
    if ls.len() == 0 {
        Ok(m)
    } else {
        match apply_line(ls[0], m) {
            Ok(next) => apply_lines(ls.drop_first(), next),
            Err(e) => Err(e),
        }
    }
}

/// The item that a block of text describes.
pub open spec fn decode(entry: Seq<char>) -> Result<MediaView, DecodeErrorView> {
    let ls = lines(entry);
    if ls.len() == 0 {
        Err(DecodeErrorView::EmptyEntry)
    } else {
        apply_lines(ls.drop_first(), bare_item(ls[0], None))
    }
}

/// A line `key: value`, after the line break that precedes it.
pub open spec fn field(key: Seq<char>, value: Seq<char>) -> Seq<char> {
    seq!['\n'] + key + seq![':', ' '] + value
}

/// Tags joined by a comma and a space.
pub open spec fn join_tags(tags: Seq<Seq<char>>) -> Seq<char>
    decreases tags.len(),
{
    if tags.len() == 0 {
        Seq::empty()
    } else if tags.len() == 1 {
        tags[0]
    } else {
        tags[0] + seq![',', ' '] + join_tags(tags.drop_first())
    }
}

pub open spec fn year_field(year: Option<u16>) -> Seq<char> {
    match year {
        Some(y) => field(key_year(), decimal(y as nat)),
        None => Seq::empty(),
    }
}

pub open spec fn rating_field(rating: Option<u8>) -> Seq<char> {
    match rating {
        Some(r) => field(key_rating(), decimal(r as nat)),
        None => Seq::empty(),
    }
}

pub open spec fn tags_field(tags: Seq<Seq<char>>) -> Seq<char> {
    if tags.len() > 0 {
        field(key_tags(), join_tags(tags))
    } else {
        Seq::empty()
    }
}

pub open spec fn note_field(note: Seq<char>) -> Seq<char> {
    if note.len() > 0 {
        field(key_note(), note)
    } else {
        Seq::empty()
    }
}

pub open spec fn last_seen_field(last_seen: Option<Date>) -> Seq<char> {
    match last_seen {
        Some(d) => field(key_last_seen(), date_text(d)),
        None => Seq::empty(),
    }
}

/// The block of text of an item: the name, then each property that is
/// present, in the order year, rating, tags, note, last_seen.
pub open spec fn encode(m: MediaView) -> Seq<char> {
    m.name + year_field(m.year) + rating_field(m.rating) + tags_field(m.tags) + note_field(m.note)
        + last_seen_field(m.last_seen)
}

pub open spec fn decoded(r: Result<Media, DecodeError>) -> Result<MediaView, DecodeErrorView> {
    match r {
        Ok(m) => Ok(m@),
        Err(e) => Err(e@),
    }
}

pub open spec fn number_result(r: Result<u16, DecodeError>) -> Result<int, DecodeErrorView> {
    match r {
        Ok(v) => Ok(v as int),
        Err(e) => Err(e@),
    }
}

pub open spec fn tags_result(r: Result<Vec<String>, DecodeError>) -> Result<
    Seq<Seq<char>>,
    DecodeErrorView,
> {
    match r {
        Ok(t) => Ok(string_views(t@)),
        Err(e) => Err(e@),
    }
}

pub open spec fn date_result(r: Result<Date, DecodeError>) -> Result<Date, DecodeErrorView> {
    match r {
        Ok(d) => Ok(d),
        Err(e) => Err(e@),
    }
}

pub open spec fn line_result(r: Result<(), DecodeError>, m: MediaView) -> Result<
    MediaView,
    DecodeErrorView,
> {
    match r {
        Ok(_) => Ok(m),
        Err(e) => Err(e@),
    }
}

/// Reads the numeric property `key` from `value`, no larger than `max`.
pub fn parse_prop(key: &str, value: &str, max: u16) -> (r: Result<u16, DecodeError>)
    ensures
        number_result(r) == number_of(key@, value@, max as int),
{
    let v = chars_of(value);
    match parse_uint_chars(&v, max) {
        Ok(n) => Ok(n),
        Err(e) => Err(DecodeError::PropertyParse { property: key.to_owned(), reason: e }),
    }
}

/// Reads the tags of a `tags` value.
pub fn parse_tags(input: &str) -> (r: Result<Vec<String>, DecodeError>)
    ensures
        tags_result(r) == tags_of(input@),
{
    let chars = chars_of(input);
    let pieces = split_char(&chars, ',');
    let ghost trimmed = split_on(input@, ',').map_values(|p: Seq<char>| trim(p));
    let mut tags: Vec<String> = Vec::new();
    let mut k: usize = 0;
    while k < pieces.len()
        invariant
            k <= pieces.len(),
            views(pieces@) == split_on(input@, ','),
            trimmed == split_on(input@, ',').map_values(|p: Seq<char>| trim(p)),
            string_views(tags@) == trimmed.take(k as int),
            forall|j: int| 0 <= j < k ==> trimmed[j].len() > 0,
        decreases pieces.len() - k,
    {
        let t = trim_chars(&pieces[k]);
        assert(t@ == trimmed[k as int]);
        if t.len() == 0 {
            assert(trimmed[k as int] =~= Seq::<char>::empty());
            assert(trimmed.contains(Seq::<char>::empty()));
            return Err(DecodeError::EmptyTag);
        }
        let ghost before = string_views(tags@);
        tags.push(string_of(t.as_slice()));
        assert(string_views(tags@) =~= before.push(t@));
        assert(trimmed.take(k + 1) =~= trimmed.take(k as int).push(trimmed[k as int]));
        k += 1;
    }
    assert(trimmed.take(k as int) =~= trimmed);
    assert(!trimmed.contains(Seq::<char>::empty())) by {
        if trimmed.contains(Seq::<char>::empty()) {
            let j = choose|j: int| 0 <= j < trimmed.len() && trimmed[j] == Seq::<char>::empty();
            assert(trimmed[j].len() > 0);
        }
    }
    Ok(tags)
}

/// Reads the date of a `last_seen` value.
pub fn parse_last_seen(input: &str) -> (r: Result<Date, DecodeError>)
    ensures
        date_result(r) == last_seen_of(input@),
        r matches Ok(d) ==> d.valid(),
{
    match Date::parse(input) {
        Some(d) => Ok(d),
        None => Err(DecodeError::DateParse { value: input.to_owned() }),
    }
}

/// Reads one property line into `m`.
fn apply_property(line: &Vec<char>, m: &mut Media) -> (r: Result<(), DecodeError>)
    ensures
        line_result(r, final(m)@) == apply_line(line@, old(m)@),
{
    if line.len() == 0 {
        return Err(DecodeError::IllegalBlankLine);
    }
    let i = find_char(line, 0, ':');
    assert(line@.skip(0) =~= line@);
    if i == line.len() {
        return Err(DecodeError::MissingDelimiter { line: string_of(line.as_slice()) });
    }
    let key = slice_of(line, 0, i);
    let rest = slice_of(line, i + 1, line.len());
    assert(key@ =~= line@.take(i as int));
    assert(rest@ =~= line@.skip(i + 1));
    let value = trim_chars(&rest);
    let key_text = string_of(key.as_slice());
    let value_text = string_of(value.as_slice());
    proof {
        reveal_strlit("year");
        reveal_strlit("rating");
        reveal_strlit("tags");
        reveal_strlit("note");
        reveal_strlit("last_seen");
        assert("year"@ =~= key_year());
        assert("rating"@ =~= key_rating());
        assert("tags"@ =~= key_tags());
        assert("note"@ =~= key_note());
        assert("last_seen"@ =~= key_last_seen());
    }
    if chars_eq(&key, "year") {
        match parse_prop(key_text.as_str(), value_text.as_str(), 65535) {
            Ok(v) => {
                m.year = Some(v);
                Ok(())
            },
            Err(e) => Err(e),
        }
    } else if chars_eq(&key, "rating") {
        match parse_prop(key_text.as_str(), value_text.as_str(), 255) {
            Ok(v) => {
                m.rating = Some(v as u8);
                Ok(())
            },
            Err(e) => Err(e),
        }
    } else if chars_eq(&key, "tags") {
        match parse_tags(value_text.as_str()) {
            Ok(t) => {
                m.tags = t;
                Ok(())
            },
            Err(e) => Err(e),
        }
    } else if chars_eq(&key, "note") {
        m.note = value_text;
        Ok(())
    } else if chars_eq(&key, "last_seen") {
        match parse_last_seen(value_text.as_str()) {
            Ok(d) => {
                m.last_seen = Some(d);
                Ok(())
            },
            Err(e) => Err(e),
        }
    } else {
        Err(DecodeError::UnknownKey { key: key_text })
    }
}

/// Appends a line break, `key` and the `: ` that follows it.
fn push_field_start(out: &mut Vec<char>, key: &str)
    ensures
        final(out)@ == old(out)@ + seq!['\n'] + key@ + seq![':', ' '],
{
    let ghost start = out@;
    out.push('\n');
    push_str(out, key);
    out.push(':');
    out.push(' ');
    assert(out@ =~= start + seq!['\n'] + key@ + seq![':', ' ']);
}

proof fn lemma_join_push(t: Seq<Seq<char>>, x: Seq<char>)
    requires
        t.len() >= 1,
    ensures
        join_tags(t.push(x)) == join_tags(t) + seq![',', ' '] + x,
    decreases t.len(),
{
    if t.len() == 1 {
        assert(t.push(x).drop_first() =~= seq![x]);
        assert(join_tags(seq![x]) == x);
    } else {
        assert(t.push(x).drop_first() =~= t.drop_first().push(x));
        lemma_join_push(t.drop_first(), x);
        assert(join_tags(t.push(x)) =~= join_tags(t) + seq![',', ' '] + x);
    }
}

/// Appends the tags, joined by a comma and a space.
fn push_joined(out: &mut Vec<char>, tags: &Vec<String>)
    ensures
        final(out)@ == old(out)@ + join_tags(string_views(tags@)),
{
    let ghost start = out@;
    let ghost all = string_views(tags@);
    if tags.len() == 0 {
        assert(out@ =~= start + join_tags(all));
        return;
    }
    push_str(out, tags[0].as_str());
    assert(all.take(1) =~= seq![all[0]]);
    assert(join_tags(all.take(1)) == all[0]);
    let mut i: usize = 1;
    while i < tags.len()
        invariant
            1 <= i <= tags.len(),
            all == string_views(tags@),
            out@ == start + join_tags(all.take(i as int)),
        decreases tags.len() - i,
    {
        out.push(',');
        out.push(' ');
        push_str(out, tags[i].as_str());
        proof {
            lemma_join_push(all.take(i as int), all[i as int]);
            assert(all.take(i as int).push(all[i as int]) =~= all.take(i + 1));
        }
        assert(out@ =~= start + join_tags(all.take(i + 1)));
        i += 1;
    }
    assert(all.take(i as int) =~= all);
}

impl Media {
    /// Reads an item from its block of text.
    pub fn from_db_entry(entry: &str) -> (r: Result<Media, DecodeError>)
        ensures
            decoded(r) == decode(entry@),
    {
        let chars = chars_of(entry);
        let ls = lines_of(&chars);
        if ls.len() == 0 {
            return Err(DecodeError::EmptyEntry);
        }
        let ghost all = views(ls@);
        let mut m = Media {
            name: string_of(ls[0].as_slice()),
            year: None,
            rating: None,
            tags: Vec::new(),
            note: String::new(),
            last_seen: None,
        };
        assert(m@ == bare_item(all[0], None)) by {
            assert(m@.tags =~= Seq::<Seq<char>>::empty());
        }
        let mut k: usize = 1;
        assert(all.subrange(1, ls.len() as int) =~= all.drop_first());
        while k < ls.len()
            invariant
                1 <= k <= ls.len(),
                all == views(ls@),
                all == lines(entry@),
                apply_lines(all.drop_first(), bare_item(all[0], None)) == apply_lines(
                    all.subrange(k as int, ls.len() as int),
                    m@,
                ),
            decreases ls.len() - k,
        {
            let ghost rest = all.subrange(k as int, ls.len() as int);
            assert(rest[0] == ls@[k as int]@);
            assert(rest.drop_first() =~= all.subrange(k + 1, ls.len() as int));
            match apply_property(&ls[k], &mut m) {
                Ok(()) => {},
                Err(e) => {
                    return Err(e);
                },
            }
            k += 1;
        }
        assert(all.subrange(k as int, ls.len() as int) =~= Seq::<Seq<char>>::empty());
        Ok(m)
    }

    /// The block of text of this item.
    pub fn to_db_entry(&self) -> (r: String)
        ensures
            r@ == encode(self@),
    {
        let mut out: Vec<char> = Vec::new();
        push_str(&mut out, self.name.as_str());
        push_year_field(&mut out, self.year);
        push_rating_field(&mut out, self.rating);
        push_tags_field(&mut out, &self.tags);
        push_note_field(&mut out, &self.note);
        push_last_seen_field(&mut out, self.last_seen);
        assert(out@ =~= encode(self@));
        string_of(out.as_slice())
    }
}

fn push_year_field(out: &mut Vec<char>, year: Option<u16>)
    ensures
        final(out)@ == old(out)@ + year_field(year),
{
    proof {
        reveal_strlit("year");
        assert("year"@ =~= key_year());
    }
    let ghost start = out@;
    if let Some(y) = year {
        push_field_start(out, "year");
        push_decimal(out, y as u32);
    }
    assert(out@ =~= start + year_field(year));
}

fn push_rating_field(out: &mut Vec<char>, rating: Option<u8>)
    ensures
        final(out)@ == old(out)@ + rating_field(rating),
{
    proof {
        reveal_strlit("rating");
        assert("rating"@ =~= key_rating());
    }
    let ghost start = out@;
    if let Some(r) = rating {
        push_field_start(out, "rating");
        push_decimal(out, r as u32);
    }
    assert(out@ =~= start + rating_field(rating));
}

fn push_tags_field(out: &mut Vec<char>, tags: &Vec<String>)
    ensures
        final(out)@ == old(out)@ + tags_field(string_views(tags@)),
{
    proof {
        reveal_strlit("tags");
        assert("tags"@ =~= key_tags());
    }
    let ghost start = out@;
    if tags.len() > 0 {
        push_field_start(out, "tags");
        push_joined(out, tags);
    }
    assert(out@ =~= start + tags_field(string_views(tags@)));
}

fn push_note_field(out: &mut Vec<char>, note: &String)
    ensures
        final(out)@ == old(out)@ + note_field(note@),
{
    proof {
        reveal_strlit("note");
        assert("note"@ =~= key_note());
    }
    let ghost start = out@;
    if !note.as_str().is_empty() {
        push_field_start(out, "note");
        push_str(out, note.as_str());
    }
    assert(out@ =~= start + note_field(note@));
}

fn push_last_seen_field(out: &mut Vec<char>, last_seen: Option<Date>)
    ensures
        final(out)@ == old(out)@ + last_seen_field(last_seen),
{
    proof {
        reveal_strlit("last_seen");
        assert("last_seen"@ =~= key_last_seen());
    }
    let ghost start = out@;
    if let Some(d) = last_seen {
        push_field_start(out, "last_seen");
        d.push_text(out);
    }
    assert(out@ =~= start + last_seen_field(last_seen));
}

} // verus!
