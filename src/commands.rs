//! What each command does to the store, apart from reading arguments and
//! printing.
use vstd::prelude::*;
use crate::handle::Handle;
use crate::media::{bare_item, first_index, watchlist_tag, with_tags, Media, MediaView};
use crate::parser::{decode, DecodeError};
use crate::repo::{find_item, Repo};
use crate::text::{chars_of, string_views};

verus! {

/// Why a command failed.
#[derive(Debug)]
pub enum CommandError {
    /// No item has the handle.
    ItemNotFound,
    /// `add` names an existing item and gives nothing to add to it.
    ItemAlreadyExists,
    /// A note must be a single line.
    NoteHasNewline,
    /// The item already has a note.
    NoteAlreadySet,
    /// The edited text is not a record.
    Decode(DecodeError),
}

/// The item that a command on `name` and `year` works on: the first one
/// with that handle, or a new one.
pub open spec fn target(items: Seq<MediaView>, name: Seq<char>, year: Option<u16>) -> MediaView {
    let i = find_item(items, name, year);
    if i < items.len() {
        items[i]
    } else {
        bare_item(name, year)
    }
}

/// The items once the target of a command is replaced by `item` (or added
/// after the others, where it is new).
pub open spec fn placed(
    items: Seq<MediaView>,
    name: Seq<char>,
    year: Option<u16>,
    item: MediaView,
) -> Seq<MediaView> {
    let i = find_item(items, name, year);
    if i < items.len() {
        items.update(i, item)
    } else {
        items.push(item)
    }
}

/// `m` after adding each of `tags` in order, each one only where it is not
/// there yet.
pub open spec fn add_tags(m: MediaView, tags: Seq<Seq<char>>) -> MediaView
    decreases tags.len(),
{
    if tags.len() == 0 {
        m
    } else {
        let prev = add_tags(m, tags.drop_last());
        if prev.tags.contains(tags.last()) {
            prev
        } else {
            with_tags(prev, prev.tags.push(tags.last()))
        }
    }
}

/// `m` after removing the first occurrence of each of `tags` in order,
/// where there is one.
pub open spec fn remove_tags(m: MediaView, tags: Seq<Seq<char>>) -> MediaView
    decreases tags.len(),
{
    if tags.len() == 0 {
        m
    } else {
        let prev = remove_tags(m, tags.drop_last());
        if prev.tags.contains(tags.last()) {
            with_tags(prev, prev.tags.remove(first_index(prev.tags, tags.last())))
        } else {
            prev
        }
    }
}

/// Adds each of `tags` to `m`; tells for each whether it was added (it was
/// not there yet).
fn add_each_tag(m: &mut Media, tags: &Vec<String>) -> (r: Vec<bool>)
    ensures
        final(m)@ == add_tags(old(m)@, string_views(tags@)),
        r.len() == tags.len(),
        forall|k: int|
            0 <= k < tags.len() ==> r@[k] == !add_tags(
                old(m)@,
                string_views(tags@).take(k),
            ).tags.contains(tags@[k]@),
{
    let ghost start = m@;
    let ghost all = string_views(tags@);
    let mut added: Vec<bool> = Vec::new();
    let mut k: usize = 0;
    assert(all.take(0) =~= Seq::<Seq<char>>::empty());
    while k < tags.len()
        invariant
            k <= tags.len(),
            all == string_views(tags@),
            m@ == add_tags(start, all.take(k as int)),
            added.len() == k,
            forall|j: int|
                0 <= j < k ==> added@[j] == !add_tags(start, all.take(j)).tags.contains(
                    tags@[j]@,
                ),
        decreases tags.len() - k,
    {
        let fresh = !m.has_tag(tags[k].as_str());
        m.add_tag(tags[k].as_str());
        added.push(fresh);
        assert(all.take(k + 1).drop_last() =~= all.take(k as int));
        k += 1;
    }
    assert(all.take(k as int) =~= all);
    added
}

/// Removes the first occurrence of each of `tags` from `m`; tells for each
/// whether it was there.
fn remove_each_tag(m: &mut Media, tags: &Vec<String>) -> (r: Vec<bool>)
    ensures
        final(m)@ == remove_tags(old(m)@, string_views(tags@)),
        r.len() == tags.len(),
        forall|k: int|
            0 <= k < tags.len() ==> r@[k] == remove_tags(
                old(m)@,
                string_views(tags@).take(k),
            ).tags.contains(tags@[k]@),
{
    let ghost start = m@;
    let ghost all = string_views(tags@);
    let mut removed: Vec<bool> = Vec::new();
    let mut k: usize = 0;
    assert(all.take(0) =~= Seq::<Seq<char>>::empty());
    while k < tags.len()
        invariant
            k <= tags.len(),
            all == string_views(tags@),
            m@ == remove_tags(start, all.take(k as int)),
            removed.len() == k,
            forall|j: int|
                0 <= j < k ==> removed@[j] == remove_tags(start, all.take(j)).tags.contains(
                    tags@[j]@,
                ),
        decreases tags.len() - k,
    {
        let found = m.remove_tag(tags[k].as_str()).is_ok();
        removed.push(found);
        assert(all.take(k + 1).drop_last() =~= all.take(k as int));
        k += 1;
    }
    assert(all.take(k as int) =~= all);
    removed
}

/// Whether the note holds a line break.
pub open spec fn has_line_break(note: Option<String>) -> bool {
    match note {
        Some(n) => n@.contains('\n'),
        None => false,
    }
}

/// Whether `s` holds a line break.
fn line_break_in(s: &String) -> (r: bool)
    ensures
        r == s@.contains('\n'),
{
    let chars = chars_of(s.as_str());
    let mut i: usize = 0;
    while i < chars.len()
        invariant
            i <= chars.len(),
            chars@ == s@,
            forall|k: int| 0 <= k < i ==> chars@[k] != '\n',
        decreases chars.len() - i,
    {
        if chars[i] == '\n' {
            assert(s@[i as int] == '\n');
            return true;
        }
        i += 1;
    }
    false
}

/// What `add` did: whether it created the item, and for each tag whether
/// it was added (it was not there yet).
#[derive(Debug)]
pub struct AddReport {
    pub created: bool,
    pub added: Vec<bool>,
}

/// The `add` command: adds the item where it is new, then the tags it does
/// not carry yet, then the note. Fails on a note with a line break, on an
/// existing item with neither tags nor a note to add, and on a note for an
/// item that has one; in the last case the tags have been added.
pub fn add_item(repo: &mut Repo, handle: &Handle, tags: &Vec<String>, note: Option<String>) -> (r:
    Result<AddReport, CommandError>)
    ensures
        ({
            let items = old(repo)@;
            let exists = find_item(items, handle.name@, handle.year) < items.len();
            let tagged = add_tags(target(items, handle.name@, handle.year), string_views(tags@));
            if has_line_break(note) {
                r matches Err(CommandError::NoteHasNewline) && final(repo)@ == items
            } else if exists && tags.len() == 0 && note is None {
                r matches Err(CommandError::ItemAlreadyExists) && final(repo)@ == items
            } else if note is Some && tagged.note.len() > 0 {
                r matches Err(CommandError::NoteAlreadySet) && final(repo)@ == placed(
                    items,
                    handle.name@,
                    handle.year,
                    tagged,
                )
            } else {
                &&& r matches Ok(report) && report.created == !exists && report.added.len()
                    == tags.len() && forall|k: int|
                    0 <= k < tags.len() ==> report.added@[k] == !add_tags(
                        target(items, handle.name@, handle.year),
                        string_views(tags@).take(k),
                    ).tags.contains(tags@[k]@)
                &&& final(repo)@ == placed(
                    items,
                    handle.name@,
                    handle.year,
                    match note {
                        Some(n) => MediaView { note: n@, ..tagged },
                        None => tagged,
                    },
                )
            }
        }),
{
    let broken = match &note {
        Some(n) => line_break_in(n),
        None => false,
    };
    if broken {
        return Err(CommandError::NoteHasNewline);
    }
    let exists = repo.contains(handle);
    if exists && tags.len() == 0 && note.is_none() {
        return Err(CommandError::ItemAlreadyExists);
    }
    let m = repo.get_or_create(handle);
    let added = add_each_tag(m, tags);
    match note {
        Some(n) => {
            if m.note.as_str().is_empty() {
                m.note = n;
            } else {
                return Err(CommandError::NoteAlreadySet);
            }
        },
        None => {},
    }
    Ok(AddReport { created: !exists, added })
}

/// What `rate` did: whether it created the item, and whether it took it off
/// the watchlist.
#[derive(Debug)]
pub struct RateReport {
    pub created: bool,
    pub unwatched: bool,
}

/// The item rated: its rating set, and off the watchlist.
pub open spec fn rated(m: MediaView, rating: u8) -> MediaView {
    let r = MediaView { rating: Some(rating), ..m };
    if r.tags.contains(watchlist_tag()) {
        with_tags(r, r.tags.remove(first_index(r.tags, watchlist_tag())))
    } else {
        r
    }
}

/// The `rate` command: sets the rating of the item (adding it where it is
/// new) and takes it off the watchlist.
pub fn rate_item(repo: &mut Repo, handle: &Handle, rating: u8) -> (r: RateReport)
    ensures
        r.created == (find_item(old(repo)@, handle.name@, handle.year) == old(repo)@.len()),
        r.unwatched == target(old(repo)@, handle.name@, handle.year).tags.contains(watchlist_tag()),
        final(repo)@ == placed(
            old(repo)@,
            handle.name@,
            handle.year,
            rated(target(old(repo)@, handle.name@, handle.year), rating),
        ),
{
    let created = !repo.contains(handle);
    let m = repo.get_or_create(handle);
    m.rating = Some(rating);
    let unwatched = m.on_watchlist();
    if unwatched {
        proof {
            reveal_strlit("watchlist");
            assert("watchlist"@ =~= watchlist_tag());
        }
        let _ = m.remove_tag("watchlist");
    }
    RateReport { created, unwatched }
}

/// The `unrate` command: removes the rating of the item (adding it where it
/// is new); tells whether it created the item.
pub fn unrate_item(repo: &mut Repo, handle: &Handle) -> (created: bool)
    ensures
        created == (find_item(old(repo)@, handle.name@, handle.year) == old(repo)@.len()),
        final(repo)@ == placed(
            old(repo)@,
            handle.name@,
            handle.year,
            MediaView { rating: None, ..target(old(repo)@, handle.name@, handle.year) },
        ),
{
    let created = !repo.contains(handle);
    let m = repo.get_or_create(handle);
    m.rating = None;
    created
}

/// The `rm` command: without tags, removes the item; with tags, removes
/// each of them from the item and tells for each whether it was there.
/// Fails where no item has the handle.
pub fn remove_item(repo: &mut Repo, handle: &Handle, tags: &Vec<String>) -> (r: Result<
    Vec<bool>,
    CommandError,
>)
    ensures
        ({
            let items = old(repo)@;
            let i = find_item(items, handle.name@, handle.year);
            if i == items.len() {
                r matches Err(CommandError::ItemNotFound) && final(repo)@ == items
            } else if tags.len() == 0 {
                r matches Ok(v) && v.len() == 0 && final(repo)@ == items.update(
                    i,
                    items.last(),
                ).drop_last()
            } else {
                &&& r matches Ok(v) && v.len() == tags.len() && forall|k: int|
                    0 <= k < tags.len() ==> v@[k] == remove_tags(
                        items[i],
                        string_views(tags@).take(k),
                    ).tags.contains(tags@[k]@)
                &&& final(repo)@ == items.update(i, remove_tags(items[i], string_views(tags@)))
            }
        }),
{
    if tags.len() == 0 {
        return match repo.remove_by_handle(handle) {
            Ok(()) => Ok(Vec::new()),
            Err(_) => Err(CommandError::ItemNotFound),
        };
    }
    match repo.get(handle) {
        None => Err(CommandError::ItemNotFound),
        Some(m) => Ok(remove_each_tag(m, tags)),
    }
}

/// The `edit` command once the new text of the item is known: replaces the
/// item by the one that the text describes, after the others. Fails where
/// no item has the handle or the text is not a record; the store is then
/// unchanged.
pub fn replace_item(repo: &mut Repo, handle: &Handle, entry: &str) -> (r: Result<
    (),
    CommandError,
>)
    ensures
        ({
            let items = old(repo)@;
            let i = find_item(items, handle.name@, handle.year);
            if i == items.len() {
                r matches Err(CommandError::ItemNotFound) && final(repo)@ == items
            } else {
                match decode(entry@) {
                    Err(e) => r matches Err(CommandError::Decode(d)) && d@ == e && final(repo)@
                        == items,
                    Ok(m) => r is Ok && final(repo)@ == items.update(i, items.last()).drop_last().push(
                        m,
                    ),
                }
            }
        }),
{
    if !repo.contains(handle) {
        return Err(CommandError::ItemNotFound);
    }
    let item = match Media::from_db_entry(entry) {
        Ok(m) => m,
        Err(e) => {
            return Err(CommandError::Decode(e));
        },
    };
    let _ = repo.remove_by_handle(handle);
    let _ = repo.add(item);
    Ok(())
}

} // verus!
