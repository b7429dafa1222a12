//! The collection store: every item of the database, read from and written
//! back to its text as a whole.
use vstd::prelude::*;
use crate::handle::Handle;
use crate::list::item_views;
use crate::media::{bare_item, Media, MediaView};
use crate::parser::{decode, encode, DecodeError, DecodeErrorView};
use crate::text::{
    chars_of, push_str, split_blocks, split_blocks_of, string_of, trim, trim_chars, trim_end,
    trim_end_chars, views,
};

verus! {

/// Why a store operation failed.
#[derive(Clone, Copy, Debug, PartialEq, Eq, Structural)]
pub enum StoreError {
    /// No item has the handle.
    ItemNotFound,
}

/// The items of the blocks `bs`, read in order; blocks that are blank once
/// trimmed are skipped, and the first block that is not a record decides
/// the error.
pub open spec fn load_blocks(bs: Seq<Seq<char>>) -> Result<Seq<MediaView>, DecodeErrorView>
    decreases bs.len(),
{
    if bs.len() == 0 {
        Ok(Seq::empty())
    } else {
        match load_blocks(bs.drop_last()) {
            Err(e) => Err(e),
            Ok(items) => {
                let b = trim(bs.last());
                if b.len() == 0 {
                    Ok(items)
                } else {
                    match decode(b) {
                        Ok(m) => Ok(items.push(m)),
                        Err(e) => Err(e),
                    }
                }
            },
        }
    }
}

/// The items of a database text: its blocks between blank lines, each
/// trimmed, the blank ones skipped.
pub open spec fn load(content: Seq<char>) -> Result<Seq<MediaView>, DecodeErrorView> {
    load_blocks(split_blocks(content))
}

/// The blocks of the items, each followed by a blank line.
pub open spec fn join_blocks(items: Seq<MediaView>) -> Seq<char>
    decreases items.len(),
{
    if items.len() == 0 {
        Seq::empty()
    } else {
        join_blocks(items.drop_last()) + encode(items.last()) + seq!['\n', '\n']
    }
}

/// The database text of the items: their blocks separated by blank lines,
/// with no trailing white space.
pub open spec fn db_text(items: Seq<MediaView>) -> Seq<char> {
    trim_end(join_blocks(items))
}

/// Index of the first item with the name and year, or the number of items.
pub open spec fn find_item(items: Seq<MediaView>, name: Seq<char>, year: Option<u16>) -> int
    decreases items.len(),
{
    if items.len() == 0 {
        0
    } else if items[0].name == name && items[0].year == year {
        0
    } else {
        1 + find_item(items.drop_first(), name, year)
    }
}

proof fn lemma_find_item(items: Seq<MediaView>, name: Seq<char>, year: Option<u16>, i: int)
    requires
        0 <= i <= items.len(),
        forall|k: int| 0 <= k < i ==> !(items[k].name == name && items[k].year == year),
        i == items.len() || (items[i].name == name && items[i].year == year),
    ensures
        find_item(items, name, year) == i,
    decreases items.len(),
{
    if items.len() > 0 && i > 0 {
        lemma_find_item(items.drop_first(), name, year, i - 1);
    }
}

proof fn lemma_load_err(bs: Seq<Seq<char>>, k: int)
    requires
        0 <= k <= bs.len(),
        load_blocks(bs.take(k)) is Err,
    ensures
        load_blocks(bs) == load_blocks(bs.take(k)),
    decreases bs.len() - k,
{
    if k < bs.len() {
        assert(bs.take(k + 1).drop_last() =~= bs.take(k));
        lemma_load_err(bs, k + 1);
    } else {
        assert(bs.take(k) =~= bs);
    }
}

proof fn lemma_views_update(items: Seq<Media>, i: int)
    requires
        0 <= i < items.len(),
    ensures
        forall|x: Media| #[trigger]
            item_views(items.update(i, x)) == item_views(items).update(i, x@),
{
    assert forall|x: Media| #[trigger]
        item_views(items.update(i, x)) == item_views(items).update(i, x@) by {
        assert(item_views(items.update(i, x)) =~= item_views(items).update(i, x@));
    }
}

pub open spec fn loaded(r: Result<Repo, DecodeError>) -> Result<Seq<MediaView>, DecodeErrorView> {
    match r {
        Ok(repo) => Ok(repo@),
        Err(e) => Err(e@),
    }
}

/// All items of the database, in file order.
#[derive(Debug)]
pub struct Repo {
    items: Vec<Media>,
}

impl View for Repo {
    type V = Seq<MediaView>;

    closed spec fn view(&self) -> Seq<MediaView> {
        item_views(self.items@)
    }
}

impl Repo {
    /// The store of the items in a database text; an empty text holds none.
    pub fn new(content: &str) -> (r: Result<Repo, DecodeError>)
        ensures
            loaded(r) == load(content@),
            content@.len() == 0 ==> (r matches Ok(repo) && repo@.len() == 0),
    {
        let chars = chars_of(content);
        let blocks = split_blocks_of(&chars);
        let ghost bs = views(blocks@);
        let mut items: Vec<Media> = Vec::new();
        let mut k: usize = 0;
        assert(bs.take(0) =~= Seq::<Seq<char>>::empty());
        assert(item_views(items@) =~= Seq::<MediaView>::empty());
        while k < blocks.len()
            invariant
                k <= blocks.len(),
                bs == views(blocks@),
                bs == split_blocks(chars@),
                chars@ == content@,
                load_blocks(bs.take(k as int)) == Ok::<Seq<MediaView>, DecodeErrorView>(
                    item_views(items@),
                ),
            decreases blocks.len() - k,
        {
            assert(bs.take(k + 1).drop_last() =~= bs.take(k as int));
            assert(bs.take(k + 1).last() == blocks@[k as int]@);
            let block = trim_chars(&blocks[k]);
            if block.len() > 0 {
                let text = string_of(block.as_slice());
                match Media::from_db_entry(text.as_str()) {
                    Ok(m) => {
                        let ghost before = item_views(items@);
                        items.push(m);
                        assert(item_views(items@) =~= before.push(m@));
                    },
                    Err(e) => {
                        proof {
                            lemma_load_err(bs, k + 1);
                        }
                        return Err(e);
                    },
                }
            }
            k += 1;
        }
        assert(bs.take(k as int) =~= bs);
        proof {
            if content@.len() == 0 {
                assert(split_blocks(chars@) == seq![chars@]);
                assert(bs.drop_last() =~= Seq::<Seq<char>>::empty());
                assert(trim(bs.last()).len() == 0);
            }
        }
        Ok(Repo { items })
    }

    /// Position of the first item with the handle, or the number of items.
    fn position(&self, handle: &Handle) -> (r: usize)
        ensures
            r == find_item(self@, handle.name@, handle.year),
            r <= self@.len(),
    {
        let mut i: usize = 0;
        while i < self.items.len()
            invariant
                i <= self.items.len(),
                forall|k: int|
                    0 <= k < i ==> !(self@[k].name == handle.name@ && self@[k].year
                        == handle.year),
            decreases self.items.len() - i,
        {
            if self.items[i].matches_handle(handle) {
                proof {
                    lemma_find_item(self@, handle.name@, handle.year, i as int);
                }
                return i;
            }
            i += 1;
        }
        proof {
            lemma_find_item(self@, handle.name@, handle.year, i as int);
        }
        i
    }

    /// Whether an item has the handle's name and year.
    pub fn contains(&self, handle: &Handle) -> (r: bool)
        ensures
            r == (find_item(self@, handle.name@, handle.year) < self@.len()),
            find_item(self@, handle.name@, handle.year) <= self@.len(),
    {
        self.position(handle) < self.items.len()
    }

    /// The first item with the handle's name and year.
    pub fn get(&mut self, handle: &Handle) -> (r: Option<&mut Media>)
        ensures
            r is None <==> find_item(old(self)@, handle.name@, handle.year) == old(self)@.len(),
            r is None ==> final(self)@ == old(self)@,
            r matches Some(m) ==> {
                let i = find_item(old(self)@, handle.name@, handle.year);
                &&& m@ == old(self)@[i]
                &&& final(self)@ == old(self)@.update(i, final(m)@)
            },
    {
        let i = self.position(handle);
        if i == self.items.len() {
            return None;
        }
        proof {
            lemma_views_update(self.items@, i as int);
        }
        Some(&mut self.items[i])
    }

    /// The first item with the handle's name and year; where there is none,
    /// a new item for the handle, added after the others.
    pub fn get_or_create(&mut self, handle: &Handle) -> (r: &mut Media)
        ensures
            ({
                let i = find_item(old(self)@, handle.name@, handle.year);
                if i < old(self)@.len() {
                    &&& r@ == old(self)@[i]
                    &&& final(self)@ == old(self)@.update(i, final(r)@)
                } else {
                    &&& r@ == bare_item(handle.name@, handle.year)
                    &&& final(self)@ == old(self)@.push(final(r)@)
                }
            }),
    {
        let i = self.position(handle);
        if i == self.items.len() {
            let ghost before = self@;
            self.items.push(Media::from_handle(handle));
            assert(self@ =~= before.push(self.items@[i as int]@));
        }
        proof {
            lemma_views_update(self.items@, i as int);
        }
        &mut self.items[i]
    }

    /// All items, in file order.
    pub fn get_all(&self) -> (r: &Vec<Media>)
        ensures
            item_views(r@) == self@,
    {
        &self.items
    }

    /// Replaces the first item with the handle by what `f` makes of it;
    /// fails where no item has the handle.
    pub fn update<F: FnOnce(Media) -> Media>(&mut self, handle: &Handle, f: F) -> (r: Result<
        (),
        StoreError,
    >)
        requires
            forall|m: Media| f.requires((m,)),
        ensures
            r is Err <==> find_item(old(self)@, handle.name@, handle.year) == old(self)@.len(),
            r is Err ==> final(self)@ == old(self)@,
            r is Ok ==> exists|old_item: Media, new_item: Media|
                {
                    let i = find_item(old(self)@, handle.name@, handle.year);
                    &&& old_item@ == old(self)@[i]
                    &&& #[trigger] f.ensures((old_item,), new_item)
                    &&& final(self)@ == old(self)@.update(i, new_item@)
                },
    {
        let i = self.position(handle);
        if i == self.items.len() {
            return Err(StoreError::ItemNotFound);
        }
        let ghost before = self@;
        let item = self.items.remove(i);
        let new_item = f(item);
        self.items.insert(i, new_item);
        assert(self@ =~= before.update(i as int, new_item@));
        Ok(())
    }

    /// Adds an item after the others, whatever its handle.
    pub fn add(&mut self, item: Media) -> (r: Result<(), StoreError>)
        ensures
            r is Ok,
            final(self)@ == old(self)@.push(item@),
    {
        let ghost before = self@;
        self.items.push(item);
        assert(self@ =~= before.push(item@));
        Ok(())
    }

    /// Removes the first item with the handle; the last item takes its
    /// place. Fails where no item has the handle.
    pub fn remove_by_handle(&mut self, handle: &Handle) -> (r: Result<(), StoreError>)
        ensures
            r is Err <==> find_item(old(self)@, handle.name@, handle.year) == old(self)@.len(),
            r is Err ==> final(self)@ == old(self)@,
            r is Ok ==> {
                let i = find_item(old(self)@, handle.name@, handle.year);
                final(self)@ == old(self)@.update(i, old(self)@.last()).drop_last()
            },
    {
        let i = self.position(handle);
        if i == self.items.len() {
            return Err(StoreError::ItemNotFound);
        }
        let ghost before = self@;
        self.items.swap_remove(i);
        assert(self@ =~= before.update(i as int, before.last()).drop_last());
        Ok(())
    }

    /// The database text of all items.
    pub fn to_db_text(&self) -> (r: String)
        ensures
            r@ == db_text(self@),
    {
        let mut out: Vec<char> = Vec::new();
        let mut k: usize = 0;
        assert(self@.take(0) =~= Seq::<MediaView>::empty());
        while k < self.items.len()
            invariant
                k <= self.items.len(),
                out@ == join_blocks(self@.take(k as int)),
            decreases self.items.len() - k,
        {
            let entry = self.items[k].to_db_entry();
            push_str(&mut out, entry.as_str());
            out.push('\n');
            out.push('\n');
            assert(self@.take(k + 1).drop_last() =~= self@.take(k as int));
            assert(out@ =~= join_blocks(self@.take(k + 1)));
            k += 1;
        }
        assert(self@.take(k as int) =~= self@);
        let trimmed = trim_end_chars(&out);
        string_of(trimmed.as_slice())
    }
}

} // verus!
