//! A tracked item (a movie or a series) and the tags it carries.
use vstd::prelude::*;
use crate::date::Date;
use crate::handle::Handle;
use crate::text::{chars_eq, chars_of, string_views};

verus! {

/// One tracked item.
#[derive(Debug)]
pub struct Media {
    pub name: String,
    pub year: Option<u16>,
    pub rating: Option<u8>,
    pub tags: Vec<String>,
    pub note: String,
    pub last_seen: Option<Date>,
}

/// An item as plain values.
pub struct MediaView {
    pub name: Seq<char>,
    pub year: Option<u16>,
    pub rating: Option<u8>,
    pub tags: Seq<Seq<char>>,
    pub note: Seq<char>,
    pub last_seen: Option<Date>,
}

impl View for Media {
    type V = MediaView;

    open spec fn view(&self) -> MediaView {
        MediaView {
            name: self.name@,
            year: self.year,
            rating: self.rating,
            tags: string_views(self.tags@),
            note: self.note@,
            last_seen: self.last_seen,
        }
    }
}

/// A new item: a name and a year, nothing else.
pub open spec fn bare_item(name: Seq<char>, year: Option<u16>) -> MediaView {
    MediaView {
        name,
        year,
        rating: None,
        tags: Seq::empty(),
        note: Seq::empty(),
        last_seen: None,
    }
}

/// The tag that puts an item on the watchlist.
pub open spec fn watchlist_tag() -> Seq<char> {
    seq!['w', 'a', 't', 'c', 'h', 'l', 'i', 's', 't']
}

/// The filter term met by every item with a rating.
pub open spec fn rated_tag() -> Seq<char> {
    seq!['r', 'a', 't', 'e', 'd']
}

/// The filter term met by every item without a rating.
pub open spec fn unrated_tag() -> Seq<char> {
    seq!['u', 'n', 'r', 'a', 't', 'e', 'd']
}

/// Whether an item meets a tag filter term: it carries the tag, or the term
/// is `rated` / `unrated` and the item has / lacks a rating.
pub open spec fn meets_tag(m: MediaView, tag: Seq<char>) -> bool {
    ||| m.tags.contains(tag)
    ||| (tag == rated_tag() && m.rating is Some)
    ||| (tag == unrated_tag() && m.rating is None)
}

/// Index of the first `x` in `s`, or the length of `s`.
pub open spec fn first_index<A>(s: Seq<A>, x: A) -> int
    decreases s.len(),
{
    if s.len() == 0 {
        0
    } else if s[0] == x {
        0
    } else {
        1 + first_index(s.drop_first(), x)
    }
}

pub proof fn lemma_first_index<A>(s: Seq<A>, x: A, i: int)
    requires
        0 <= i <= s.len(),
        forall|k: int| 0 <= k < i ==> s[k] != x,
        i == s.len() || s[i] == x,
    ensures
        first_index(s, x) == i,
    decreases s.len(),
{
    if s.len() > 0 && i > 0 {
        lemma_first_index(s.drop_first(), x, i - 1);
    }
}

/// The item `m` with other tags.
pub open spec fn with_tags(m: MediaView, tags: Seq<Seq<char>>) -> MediaView {
    MediaView { tags, ..m }
}

impl Media {
    /// A new item with a name and a year and nothing else.
    pub fn new(name: &str, year: Option<u16>) -> (r: Media)
        ensures
            r@ == bare_item(name@, year),
    {
        let r = Media {
            name: name.to_owned(),
            year,
            rating: None,
            tags: Vec::new(),
            note: String::new(),
            last_seen: None,
        };
        assert(r@.tags =~= Seq::<Seq<char>>::empty());
        r
    }

    /// A new item for a handle.
    pub fn from_handle(handle: &Handle) -> (r: Media)
        ensures
            r@ == bare_item(handle.name@, handle.year),
    {
        Self::new(handle.name.as_str(), handle.year)
    }

    /// Whether this item has the handle's name and year.
    pub fn matches_handle(&self, handle: &Handle) -> (r: bool)
        ensures
            r == (self.name@ == handle.name@ && self.year == handle.year),
    {
        let same_year = match (self.year, handle.year) {
            (Some(a), Some(b)) => a == b,
            (None, None) => true,
            _ => false,
        };
        same_year && self.name == handle.name
    }

    /// Position of `tag` among this item's tags, or their count.
    fn tag_position(&self, tag: &str) -> (r: usize)
        ensures
            r == first_index(self@.tags, tag@),
            r <= self.tags.len(),
            forall|k: int| 0 <= k < r ==> self@.tags[k] != tag@,
            r < self.tags.len() ==> self@.tags[r as int] == tag@,
    {
        let t = String::from_str(tag);
        let mut i: usize = 0;
        while i < self.tags.len()
            invariant
                i <= self.tags.len(),
                t@ == tag@,
                forall|k: int| 0 <= k < i ==> self@.tags[k] != tag@,
            decreases self.tags.len() - i,
        {
            if self.tags[i] == t {
                proof {
                    lemma_first_index(self@.tags, tag@, i as int);
                }
                return i;
            }
            i += 1;
        }
        proof {
            lemma_first_index(self@.tags, tag@, i as int);
        }
        i
    }

    /// Whether this item carries `tag`.
    pub fn has_tag(&self, tag: &str) -> (r: bool)
        ensures
            r == self@.tags.contains(tag@),
    {
        let i = self.tag_position(tag);
        proof {
            if self@.tags.contains(tag@) {
                let k = choose|k: int| 0 <= k < self@.tags.len() && self@.tags[k] == tag@;
                assert(i <= k);
            }
            if i < self.tags.len() {
                assert(self@.tags[i as int] == tag@);
            }
        }
        i < self.tags.len()
    }

    /// Whether this item meets the tag filter term `tag`.
    pub fn matches_tag(&self, tag: &str) -> (r: bool)
        ensures
            r == meets_tag(self@, tag@),
    {
        let t = chars_of(tag);
        let is_rated = chars_eq(&t, "rated");
        let is_unrated = chars_eq(&t, "unrated");
        proof {
            reveal_strlit("rated");
            reveal_strlit("unrated");
            assert("rated"@ =~= rated_tag());
            assert("unrated"@ =~= unrated_tag());
        }
        self.has_tag(tag) || (is_rated && self.rating.is_some()) || (is_unrated
            && self.rating.is_none())
    }

    /// Whether this item is on the watchlist.
    pub fn on_watchlist(&self) -> (r: bool)
        ensures
            r == self@.tags.contains(watchlist_tag()),
    {
        proof {
            reveal_strlit("watchlist");
            assert("watchlist"@ =~= watchlist_tag());
        }
        self.has_tag("watchlist")
    }

    /// Adds `tag` after the existing tags, unless the item already carries it.
    pub fn add_tag(&mut self, tag: &str)
        ensures
            old(self)@.tags.contains(tag@) ==> final(self)@ == old(self)@,
            !old(self)@.tags.contains(tag@) ==> final(self)@ == with_tags(
                old(self)@,
                old(self)@.tags.push(tag@),
            ),
    {
        if !self.has_tag(tag) {
            self.tags.push(tag.to_owned());
            assert(string_views(self.tags@) =~= string_views(old(self).tags@).push(tag@));
        }
    }

    /// Removes the first occurrence of `tag`; fails where the item does not
    /// carry it.
    pub fn remove_tag(&mut self, tag: &str) -> (r: Result<(), TagNotFound>)
        ensures
            r is Ok <==> old(self)@.tags.contains(tag@),
            r is Ok ==> final(self)@ == with_tags(
                old(self)@,
                old(self)@.tags.remove(first_index(old(self)@.tags, tag@)),
            ),
            r is Err ==> final(self)@ == old(self)@,
    {
        let i = self.tag_position(tag);
        proof {
            if self@.tags.contains(tag@) {
                let k = choose|k: int| 0 <= k < self@.tags.len() && self@.tags[k] == tag@;
                assert(i <= k);
            }
            if i < self.tags.len() {
                assert(self@.tags[i as int] == tag@);
            }
        }
        if i < self.tags.len() {
            self.tags.remove(i);
            assert(string_views(self.tags@) =~= string_views(old(self).tags@).remove(i as int));
            Ok(())
        } else {
            Err(TagNotFound)
        }
    }
}

/// A tag that an item does not carry.
#[derive(Clone, Copy, Debug, PartialEq, Eq, Structural)]
pub struct TagNotFound;

} // verus!
