//! What a listing line is made of, before styling.
use vstd::prelude::*;
use crate::media::{Media, MediaView};
use crate::text::{string_of, string_views};

verus! {

/// What a listing shows of each item.
#[derive(Clone, Copy, Debug)]
pub struct ListOptions {
    pub note: bool,
    pub tags: bool,
    pub max_rating: u8,
}

/// The rating bar of an item, `max` wide: `+` for each point of the rating
/// and `-` for the rest, or all `?` where the item is unrated.
pub open spec fn rating_bar(rating: Option<u8>, max: u8) -> Seq<char> {
    Seq::new(
        max as nat,
        |i: int|
            match rating {
                Some(r) => if i < r {
                    '+'
                } else {
                    '-'
                },
                None => '?',
            },
    )
}

impl Media {
    /// The rating bar of this item, `max_rating` wide.
    pub fn rating_string(&self, max_rating: u8) -> (r: String)
        ensures
            r@ == rating_bar(self.rating, max_rating),
    {
        let mut out: Vec<char> = Vec::new();
        let mut i: u8 = 0;
        while i < max_rating
            invariant
                i <= max_rating,
                out@ == rating_bar(self.rating, max_rating).take(i as int),
            decreases max_rating - i,
        {
            let c = match self.rating {
                Some(r) => if i < r {
                    '+'
                } else {
                    '-'
                },
                None => '?',
            };
            out.push(c);
            assert(out@ =~= rating_bar(self.rating, max_rating).take(i + 1));
            i += 1;
        }
        assert(out@ =~= rating_bar(self.rating, max_rating));
        string_of(out.as_slice())
    }
}

/// The tags of the items, item after item, each item's in its order.
pub open spec fn all_tags(items: Seq<MediaView>) -> Seq<Seq<char>>
    decreases items.len(),
{
    if items.len() == 0 {
        Seq::empty()
    } else {
        all_tags(items.drop_last()) + items.last().tags
    }
}

/// How often `t` occurs in `s`.
pub open spec fn count_in(s: Seq<Seq<char>>, t: Seq<char>) -> nat
    decreases s.len(),
{
    if s.len() == 0 {
        0
    } else {
        count_in(s.drop_last(), t) + if s.last() == t {
            1nat
        } else {
            0nat
        }
    }
}

proof fn lemma_count_absent(s: Seq<Seq<char>>, t: Seq<char>)
    requires
        !s.contains(t),
    ensures
        count_in(s, t) == 0,
    decreases s.len(),
{
    if s.len() > 0 {
        assert(!s.drop_last().contains(t)) by {
            if s.drop_last().contains(t) {
                let i = choose|i: int| 0 <= i < s.drop_last().len() && s.drop_last()[i] == t;
                assert(s[i] == t);
            }
        }
        lemma_count_absent(s.drop_last(), t);
        assert(s.last() != t) by {
            if s.last() == t {
                assert(s[s.len() - 1] == t);
            }
        }
    }
}

/// `names` and `counts` tally the tags `seen`: each tag of `seen` once, with
/// the number of its occurrences.
pub open spec fn tallies(seen: Seq<Seq<char>>, names: Seq<Seq<char>>, counts: Seq<usize>) -> bool {
    &&& names.len() == counts.len()
    &&& names.no_duplicates()
    &&& forall|i: int| 0 <= i < names.len() ==> seen.contains(#[trigger] names[i])
    &&& forall|i: int| 0 <= i < seen.len() ==> names.contains(#[trigger] seen[i])
    &&& forall|i: int| 0 <= i < names.len() ==> #[trigger] counts[i] == count_in(seen, names[i])
}

proof fn lemma_count_le(s: Seq<Seq<char>>, t: Seq<char>)
    ensures
        count_in(s, t) <= s.len(),
    decreases s.len(),
{
    if s.len() > 0 {
        lemma_count_le(s.drop_last(), t);
    }
}

proof fn lemma_tally_existing(
    seen: Seq<Seq<char>>,
    names: Seq<Seq<char>>,
    counts: Seq<usize>,
    i: int,
)
    requires
        tallies(seen, names, counts),
        0 <= i < names.len(),
        counts[i] < usize::MAX,
    ensures
        tallies(seen.push(names[i]), names, counts.update(i, (counts[i] + 1) as usize)),
{
    let t = names[i];
    let next = seen.push(t);
    assert(next.drop_last() =~= seen);
    let c = counts.update(i, (counts[i] + 1) as usize);
    assert forall|q: int| 0 <= q < names.len() implies next.contains(#[trigger] names[q]) by {
        let w = choose|w: int| 0 <= w < seen.len() && seen[w] == names[q];
        assert(next[w] == names[q]);
    }
    assert forall|q: int| 0 <= q < next.len() implies names.contains(#[trigger] next[q]) by {
        if q < seen.len() {
            assert(next[q] == seen[q]);
        } else {
            assert(next[q] == names[i]);
        }
    }
    assert forall|q: int| 0 <= q < names.len() implies #[trigger] c[q] == count_in(
        next,
        names[q],
    ) by {
        if q != i {
            assert(names[q] != t);
        }
    }
}

proof fn lemma_tally_new(seen: Seq<Seq<char>>, names: Seq<Seq<char>>, counts: Seq<usize>, t: Seq<
    char,
>)
    requires
        tallies(seen, names, counts),
        !names.contains(t),
    ensures
        tallies(seen.push(t), names.push(t), counts.push(1)),
{
    let next = seen.push(t);
    let n2 = names.push(t);
    let c2 = counts.push(1);
    assert(next.drop_last() =~= seen);
    assert(!seen.contains(t)) by {
        if seen.contains(t) {
            let w = choose|w: int| 0 <= w < seen.len() && seen[w] == t;
            assert(names.contains(seen[w]));
        }
    }
    lemma_count_absent(seen, t);
    assert forall|q: int| 0 <= q < n2.len() implies next.contains(#[trigger] n2[q]) by {
        if q < names.len() {
            let w = choose|w: int| 0 <= w < seen.len() && seen[w] == names[q];
            assert(next[w] == n2[q]);
        } else {
            assert(next[seen.len() as int] == t);
        }
    }
    assert forall|q: int| 0 <= q < next.len() implies n2.contains(#[trigger] next[q]) by {
        if q < seen.len() {
            assert(next[q] == seen[q]);
            let w = choose|w: int| 0 <= w < names.len() && names[w] == seen[q];
            assert(n2[w] == seen[q]);
        } else {
            assert(n2[names.len() as int] == t);
        }
    }
    assert forall|q: int| 0 <= q < n2.len() implies #[trigger] c2[q] == count_in(next, n2[q]) by {
        if q < names.len() {
            assert(n2[q] == names[q]);
            assert(names[q] != t) by {
                if names[q] == t {
                    assert(names.contains(t));
                }
            }
        }
    }
    assert forall|a: int, b: int| 0 <= a < n2.len() && 0 <= b < n2.len() && a != b implies n2[a]
        != n2[b] by {
        if a < names.len() && b == names.len() {
            assert(names.contains(names[a]));
        } else if b < names.len() && a == names.len() {
            assert(names.contains(names[b]));
        }
    }
}

proof fn lemma_all_tags_prefix(views: Seq<MediaView>, k: int)
    requires
        0 <= k < views.len(),
    ensures
        all_tags(views.take(k + 1)) == all_tags(views.take(k)) + views[k].tags,
        all_tags(views.take(k + 1)).len() <= all_tags(views).len(),
    decreases views.len() - k,
{
    assert(views.take(k + 1).drop_last() =~= views.take(k));
    if k + 1 < views.len() {
        lemma_all_tags_prefix(views, k + 1);
    } else {
        assert(views.take(k + 1) =~= views);
    }
}

/// The views of the items.
pub open spec fn media_views(items: Seq<Media>) -> Seq<MediaView> {
    items.map_values(|m: Media| m@)
}

/// Each tag of the items once, with the number of its occurrences, the most
/// frequent first.
pub fn tag_counts(items: &Vec<Media>) -> (r: Vec<(String, usize)>)
    requires
        all_tags(media_views(items@)).len() <= usize::MAX,
    ensures
        exists|names: Seq<Seq<char>>, counts: Seq<usize>|
            tallies(all_tags(media_views(items@)), names, counts) && #[trigger] zip_counts(
                names,
                counts,
            ).to_multiset() == pair_views(r@).to_multiset(),
        by_count_desc(pair_views(r@)),
{
    let ghost views = media_views(items@);
    let mut names: Vec<String> = Vec::new();
    let mut counts: Vec<usize> = Vec::new();
    let mut k: usize = 0;
    assert(views.take(0) =~= Seq::<MediaView>::empty());
    assert(string_views(names@) =~= Seq::<Seq<char>>::empty());
    while k < items.len()
        invariant
            k <= items.len(),
            views == media_views(items@),
            all_tags(views).len() <= usize::MAX,
            tallies(all_tags(views.take(k as int)), string_views(names@), counts@),
        decreases items.len() - k,
    {
        let tags = &items[k].tags;
        let ghost before = all_tags(views.take(k as int));
        proof {
            lemma_all_tags_prefix(views, k as int);
        }
        let mut j: usize = 0;
        assert(before + string_views(tags@).take(0) =~= before);
        while j < tags.len()
            invariant
                j <= tags.len(),
                k < items.len(),
                tags == items@[k as int].tags,
                views == media_views(items@),
                string_views(tags@) == views[k as int].tags,
                (before + string_views(tags@)).len() <= usize::MAX,
                tallies(before + string_views(tags@).take(j as int), string_views(names@), counts@),
            decreases tags.len() - j,
        {
            let ghost seen = before + string_views(tags@).take(j as int);
            assert(before + string_views(tags@).take(j + 1) =~= seen.push(tags@[j as int]@));
            let t = &tags[j];
            let mut i: usize = 0;
            while i < names.len() && !(names[i] == *t)
                invariant
                    i <= names.len(),
                    forall|q: int| 0 <= q < i ==> string_views(names@)[q] != t@,
                decreases names.len() - i,
            {
                i += 1;
            }
            if i < names.len() {
                proof {
                    lemma_count_le(seen, t@);
                    assert(string_views(names@)[i as int] == t@);
                    lemma_tally_existing(seen, string_views(names@), counts@, i as int);
                }
                counts.set(i, counts[i] + 1);
            } else {
                assert(!string_views(names@).contains(t@)) by {
                    if string_views(names@).contains(t@) {
                        let w = choose|w: int|
                            0 <= w < string_views(names@).len() && string_views(names@)[w] == t@;
                        assert(string_views(names@)[w] != t@);
                    }
                }
                proof {
                    lemma_tally_new(seen, string_views(names@), counts@, t@);
                }
                let ghost before_names = string_views(names@);
                names.push(t.clone());
                assert(string_views(names@) =~= before_names.push(t@));
                counts.push(1);
            }
            j += 1;
        }
        assert(string_views(tags@).take(j as int) =~= string_views(tags@));
        k += 1;
    }
    assert(views.take(k as int) =~= views);
    let ghost nv = string_views(names@);
    let ghost cv = counts@;
    let r = sort_by_count(names, counts);
    assert(tallies(all_tags(views), nv, cv) && zip_counts(nv, cv).to_multiset() == pair_views(
        r@,
    ).to_multiset());
    r
}

/// The pairs as plain values.
pub open spec fn pair_views(v: Seq<(String, usize)>) -> Seq<(Seq<char>, usize)> {
    v.map_values(|p: (String, usize)| (p.0@, p.1))
}

/// Each name with its count.
pub open spec fn zip_counts(names: Seq<Seq<char>>, counts: Seq<usize>) -> Seq<(Seq<char>, usize)> {
    Seq::new(names.len(), |i: int| (names[i], counts[i]))
}

/// Whether the counts never grow along `v`.
pub open spec fn by_count_desc(v: Seq<(Seq<char>, usize)>) -> bool {
    forall|a: int| 0 <= a < v.len() - 1 ==> #[trigger] v[a].1 >= v[a + 1].1
}

/// Pairs each name with its count, the greatest count first.
fn sort_by_count(names: Vec<String>, counts: Vec<usize>) -> (r: Vec<(String, usize)>)
    requires
        names.len() == counts.len(),
    ensures
        pair_views(r@).to_multiset() == zip_counts(string_views(names@), counts@).to_multiset(),
        by_count_desc(pair_views(r@)),
{
    broadcast use vstd::seq_lib::to_multiset_insert, vstd::seq_lib::to_multiset_build;

    let ghost all = zip_counts(string_views(names@), counts@);
    let mut out: Vec<(String, usize)> = Vec::new();
    let mut k: usize = 0;
    assert(pair_views(out@) =~= Seq::<(Seq<char>, usize)>::empty());
    assert(all.take(0) =~= Seq::<(Seq<char>, usize)>::empty());
    while k < names.len()
        invariant
            k <= names.len(),
            names.len() == counts.len(),
            all == zip_counts(string_views(names@), counts@),
            pair_views(out@).to_multiset() == all.take(k as int).to_multiset(),
            by_count_desc(pair_views(out@)),
        decreases names.len() - k,
    {
        let c = counts[k];
        let mut p = out.len();
        while p > 0 && out[p - 1].1 < c
            invariant
                p <= out.len(),
                forall|q: int| p <= q < out.len() ==> #[trigger] out@[q].1 < c,
            decreases p,
        {
            p -= 1;
        }
        let ghost before = pair_views(out@);
        let ghost x = all[k as int];
        out.insert(p, (names[k].clone(), c));
        let ghost o = pair_views(out@);
        assert(x == (string_views(names@)[k as int], counts@[k as int]));
        assert(o[p as int] == x);
        assert(o =~= before.insert(p as int, x));
        assert(all.take(k + 1) =~= all.take(k as int).push(x));
        proof {
            vstd::seq_lib::to_multiset_insert(before, p as int, x);
            vstd::seq_lib::to_multiset_build(all.take(k as int), x);
        }
        assert forall|a: int| 0 <= a < o.len() - 1 implies #[trigger] o[a].1 >= o[a + 1].1 by {
            if a + 1 < p {
                assert(o[a] == before[a] && o[a + 1] == before[a + 1]);
            } else if a + 1 == p {
                assert(o[a] == before[a]);
            } else if a == p {
                assert(o[a + 1] == before[a]);
            } else {
                assert(o[a] == before[a - 1] && o[a + 1] == before[a]);
            }
        }
        k += 1;
    }
    assert(all.take(k as int) =~= all);
    out
}

} // verus!
