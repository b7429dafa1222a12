//! The query pipeline: which items a listing shows, and in what order.
use vstd::prelude::*;
use crate::media::{meets_tag, watchlist_tag, Media, MediaView};
use crate::text::{chars_of, digits_number, is_digit, lemma_four_digits};

verus! {

/// Why a year filter cannot be read.
#[derive(Clone, Copy, Debug, PartialEq, Eq, Structural)]
pub enum YearFilterError {
    /// A year is not four ASCII digits.
    InvalidNumber,
    /// The comparison before the year is not one of `=`, `==`, `>`, `>=`,
    /// `+`, `<`, `<=`, `-`.
    InvalidComparison,
    /// The filter has none of the accepted shapes.
    InvalidYear,
    /// `<0000`: no year lies below it.
    EmptyRange,
}

pub open spec fn year_filter_error_text(e: YearFilterError) -> Seq<char> {
    match e {
        YearFilterError::InvalidNumber => "invalid year number"@,
        YearFilterError::InvalidComparison => "invalid comparison symbol"@,
        YearFilterError::InvalidYear => "invalid year"@,
        YearFilterError::EmptyRange => "no year lies below 0"@,
    }
}

impl YearFilterError {
    /// What went wrong, in words.
    pub fn describe(&self) -> (r: &'static str)
        ensures
            r@ == year_filter_error_text(*self),
    {
        match self {
            YearFilterError::InvalidNumber => "invalid year number",
            YearFilterError::InvalidComparison => "invalid comparison symbol",
            YearFilterError::InvalidYear => "invalid year",
            YearFilterError::EmptyRange => "no year lies below 0",
        }
    }
}

/// The latest year that an open range reaches.
pub const LAST_YEAR: u16 = 9999;

/// The value of a year written as exactly four ASCII digits.
pub open spec fn year_of(s: Seq<char>) -> Option<int> {
    if s.len() == 4 && is_digit(s[0]) && is_digit(s[1]) && is_digit(s[2]) && is_digit(s[3]) {
        Some(digits_number(s))
    } else {
        None
    }
}

/// The inclusive bounds that a year filter stands for:
/// `YYYY`; `=YYYY` or `==YYYY`; `>YYYY`; `>=YYYY`, `+YYYY` or `YYYY-`;
/// `<YYYY`; `<=YYYY` or `-YYYY`; `YYYY-YYYY` (in either order).
pub open spec fn year_bounds(s: Seq<char>) -> Result<(int, int), YearFilterError> {
    let n = s.len();
    if n == 4 {
        match year_of(s) {
            Some(y) => Ok((y, y)),
            None => Err(YearFilterError::InvalidNumber),
        }
    } else if n == 5 && s[4] == '-' && year_of(s.take(4)) is Some {
        Ok((year_of(s.take(4))->0, LAST_YEAR as int))
    } else if n == 5 {
        match year_of(s.skip(1)) {
            None => Err(YearFilterError::InvalidNumber),
            Some(y) => if s[0] == '=' {
                Ok((y, y))
            } else if s[0] == '>' {
                Ok((y + 1, LAST_YEAR as int))
            } else if s[0] == '+' {
                Ok((y, LAST_YEAR as int))
            } else if s[0] == '<' {
                if y == 0 {
                    Err(YearFilterError::EmptyRange)
                } else {
                    Ok((0, y - 1))
                }
            } else if s[0] == '-' {
                Ok((0, y))
            } else {
                Err(YearFilterError::InvalidComparison)
            },
        }
    } else if n == 6 {
        match year_of(s.skip(2)) {
            None => Err(YearFilterError::InvalidNumber),
            Some(y) => if s[0] == '=' && s[1] == '=' {
                Ok((y, y))
            } else if s[0] == '>' && s[1] == '=' {
                Ok((y, LAST_YEAR as int))
            } else if s[0] == '<' && s[1] == '=' {
                Ok((0, y))
            } else {
                Err(YearFilterError::InvalidComparison)
            },
        }
    } else if n == 9 && s[4] == '-' {
        match (year_of(s.take(4)), year_of(s.skip(5))) {
            (Some(a), Some(b)) => if a <= b {
                Ok((a, b))
            } else {
                Ok((b, a))
            },
            _ => Err(YearFilterError::InvalidNumber),
        }
    } else {
        Err(YearFilterError::InvalidYear)
    }
}

/// Reads four ASCII digits at `from`.
fn year_at(s: &Vec<char>, from: usize) -> (r: Option<u16>)
    requires
        from + 4 <= s.len(),
    ensures
        match r {
            Some(y) => year_of(s@.subrange(from as int, from + 4)) == Some(y as int),
            None => year_of(s@.subrange(from as int, from + 4)) is None,
        },
        r matches Some(y) ==> y <= LAST_YEAR,
{
    let ghost t = s@.subrange(from as int, from + 4);
    let d0 = s[from] as u32;
    let d1 = s[from + 1] as u32;
    let d2 = s[from + 2] as u32;
    let d3 = s[from + 3] as u32;
    if 48 <= d0 && d0 <= 57 && 48 <= d1 && d1 <= 57 && 48 <= d2 && d2 <= 57 && 48 <= d3 && d3
        <= 57 {
        proof {
            lemma_four_digits(t);
        }
        Some(((d0 - 48) * 1000 + (d1 - 48) * 100 + (d2 - 48) * 10 + (d3 - 48)) as u16)
    } else {
        None
    }
}

pub open spec fn bounds_result(r: Result<(u16, u16), YearFilterError>) -> Result<
    (int, int),
    YearFilterError,
> {
    match r {
        Ok((a, b)) => Ok((a as int, b as int)),
        Err(e) => Err(e),
    }
}

/// Reads a year filter as inclusive bounds.
pub fn get_year_min_max(input: &str) -> (r: Result<(u16, u16), YearFilterError>)
    ensures
        bounds_result(r) == year_bounds(input@),
{
    let s = chars_of(input);
    let n = s.len();
    if n == 4 {
        assert(s@.subrange(0, 4) =~= s@);
        return match year_at(&s, 0) {
            Some(y) => Ok((y, y)),
            None => Err(YearFilterError::InvalidNumber),
        };
    }
    if n == 5 && s[4] == '-' {
        assert(s@.subrange(0, 4) =~= s@.take(4));
        if let Some(y) = year_at(&s, 0) {
            return Ok((y, LAST_YEAR));
        }
    }
    if n == 5 {
        assert(s@.subrange(1, 5) =~= s@.skip(1));
        let y = match year_at(&s, 1) {
            Some(y) => y,
            None => {
                return Err(YearFilterError::InvalidNumber);
            },
        };
        let c = s[0];
        return if c == '=' {
            Ok((y, y))
        } else if c == '>' {
            Ok((y + 1, LAST_YEAR))
        } else if c == '+' {
            Ok((y, LAST_YEAR))
        } else if c == '<' {
            if y == 0 {
                Err(YearFilterError::EmptyRange)
            } else {
                Ok((0, y - 1))
            }
        } else if c == '-' {
            Ok((0, y))
        } else {
            Err(YearFilterError::InvalidComparison)
        };
    }
    if n == 6 {
        assert(s@.subrange(2, 6) =~= s@.skip(2));
        let y = match year_at(&s, 2) {
            Some(y) => y,
            None => {
                return Err(YearFilterError::InvalidNumber);
            },
        };
        let c0 = s[0];
        let c1 = s[1];
        return if c0 == '=' && c1 == '=' {
            Ok((y, y))
        } else if c0 == '>' && c1 == '=' {
            Ok((y, LAST_YEAR))
        } else if c0 == '<' && c1 == '=' {
            Ok((0, y))
        } else {
            Err(YearFilterError::InvalidComparison)
        };
    }
    if n == 9 && s[4] == '-' {
        assert(s@.subrange(0, 4) =~= s@.take(4));
        assert(s@.subrange(5, 9) =~= s@.skip(5));
        let a = year_at(&s, 0);
        let b = year_at(&s, 5);
        return match (a, b) {
            (Some(a), Some(b)) => if a <= b {
                Ok((a, b))
            } else {
                Ok((b, a))
            },
            _ => Err(YearFilterError::InvalidNumber),
        };
    }
    Err(YearFilterError::InvalidYear)
}

/// The weight that orders a listing: the rating (0 where there is none)
/// plus one, plus 1000 on the watchlist.
pub open spec fn weight(m: MediaView) -> int {
    (match m.rating {
        Some(r) => r as int,
        None => 0,
    }) + 1 + if m.tags.contains(watchlist_tag()) {
        1000int
    } else {
        0int
    }
}

/// The weight of an item in a listing.
pub fn get_weight(item: &Media) -> (r: usize)
    ensures
        r == weight(item@),
{
    let rating: usize = match item.rating {
        Some(r) => r as usize,
        None => 0,
    };
    rating + 1 + if item.on_watchlist() {
        1000
    } else {
        0
    }
}

/// What chars `str::to_lowercase` gives for `s`.
pub uninterp spec fn lowercase_of(s: Seq<char>) -> Seq<char>;

/// Relies on `str::to_lowercase`: the result depends on the characters of
/// `s` alone.
#[verifier::external_body]
fn lowercase(s: &str) -> (r: String)
    ensures
        r@ == lowercase_of(s@),
{
    s.to_lowercase()
}

/// Whether `a` comes strictly before `b` in code point order, a proper
/// prefix first.
pub open spec fn lex_lt(a: Seq<char>, b: Seq<char>) -> bool
    decreases a.len(),
{
    if a.len() == 0 {
        b.len() > 0
    } else if b.len() == 0 {
        false
    } else if a[0] != b[0] {
        (a[0] as u32) < (b[0] as u32)
    } else {
        lex_lt(a.drop_first(), b.drop_first())
    }
}

pub proof fn lemma_lex_asymmetric(a: Seq<char>, b: Seq<char>)
    ensures
        !(lex_lt(a, b) && lex_lt(b, a)),
    decreases a.len(),
{
    if a.len() > 0 && b.len() > 0 && a[0] == b[0] {
        lemma_lex_asymmetric(a.drop_first(), b.drop_first());
    }
}

fn lex_less(a: &Vec<char>, b: &Vec<char>) -> (r: bool)
    ensures
        r == lex_lt(a@, b@),
{
    let mut i: usize = 0;
    assert(a@.skip(0) =~= a@ && b@.skip(0) =~= b@);
    while i < a.len() && i < b.len() && a[i] == b[i]
        invariant
            i <= a.len(),
            i <= b.len(),
            lex_lt(a@, b@) == lex_lt(a@.skip(i as int), b@.skip(i as int)),
        decreases a.len() - i,
    {
        assert(a@.skip(i as int).drop_first() =~= a@.skip(i + 1));
        assert(b@.skip(i as int).drop_first() =~= b@.skip(i + 1));
        i += 1;
    }
    if i == a.len() {
        i < b.len()
    } else if i == b.len() {
        false
    } else {
        (a[i] as u32) < (b[i] as u32)
    }
}

/// Whether `a` is listed before `b`: a greater weight first, then the
/// lower-cased name in code point order.
pub open spec fn ranks_before(a: MediaView, b: MediaView) -> bool {
    ||| weight(a) > weight(b)
    ||| (weight(a) == weight(b) && lex_lt(lowercase_of(a.name), lowercase_of(b.name)))
}

pub proof fn lemma_ranks_asymmetric(a: MediaView, b: MediaView)
    ensures
        !(ranks_before(a, b) && ranks_before(b, a)),
{
    lemma_lex_asymmetric(lowercase_of(a.name), lowercase_of(b.name));
}

/// Whether an item passes the filters: it meets every tag term, and, where
/// a year range is given, has a year inside it.
pub open spec fn selected(m: MediaView, tags: Seq<Seq<char>>, bounds: Option<(int, int)>) -> bool {
    &&& forall|t: int| 0 <= t < tags.len() ==> meets_tag(m, #[trigger] tags[t])
    &&& match bounds {
        Some((lo, hi)) => m.year matches Some(y) && lo <= y <= hi,
        None => true,
    }
}

/// The views of the items.
pub open spec fn item_views(items: Seq<Media>) -> Seq<MediaView> {
    items.map_values(|m: Media| m@)
}

/// Every entry of `order` is an item that passes the filters.
pub open spec fn lists_only_selected(
    items: Seq<MediaView>,
    tags: Seq<Seq<char>>,
    bounds: Option<(int, int)>,
    order: Seq<usize>,
) -> bool {
    forall|i: int|
        0 <= i < order.len() ==> #[trigger] order[i] < items.len() && selected(
            items[order[i] as int],
            tags,
            bounds,
        )
}

/// Every item that passes the filters is in `order`.
pub open spec fn lists_all_selected(
    items: Seq<MediaView>,
    tags: Seq<Seq<char>>,
    bounds: Option<(int, int)>,
    order: Seq<usize>,
) -> bool {
    forall|k: int|
        0 <= k < items.len() && selected(#[trigger] items[k], tags, bounds) ==> order.contains(
            k as usize,
        )
}

/// No entry of `order` ranks before the one ahead of it.
pub open spec fn sorted_by_rank(items: Seq<MediaView>, order: Seq<usize>) -> bool {
    forall|i: int|
        0 <= i < order.len() - 1 ==> !ranks_before(
            items[order[i + 1] as int],
            items[#[trigger] order[i] as int],
        )
}

/// Entries of equal rank keep the order of the items.
pub open spec fn stable_in_rank(items: Seq<MediaView>, order: Seq<usize>) -> bool {
    forall|i: int, j: int|
        0 <= i < j < order.len() && !ranks_before(items[order[i] as int], items[order[j] as int])
            && !ranks_before(items[order[j] as int], items[order[i] as int]) ==> #[trigger] order[i]
            < #[trigger] order[j]
}

/// `order` lists, as indices into `items`, exactly the items that pass the
/// filters, once each, sorted by rank, and items of equal rank in the order
/// of `items`.
pub open spec fn is_listing(
    items: Seq<MediaView>,
    tags: Seq<Seq<char>>,
    bounds: Option<(int, int)>,
    order: Seq<usize>,
) -> bool {
    &&& lists_only_selected(items, tags, bounds, order)
    &&& lists_all_selected(items, tags, bounds, order)
    &&& order.no_duplicates()
    &&& sorted_by_rank(items, order)
    &&& stable_in_rank(items, order)
}

/// The filter terms as plain values.
pub open spec fn tag_views(tags: Seq<String>) -> Seq<Seq<char>> {
    tags.map_values(|t: String| t@)
}

/// Whether `item` meets every tag term.
fn meets_all(item: &Media, tags: &Vec<String>) -> (r: bool)
    ensures
        r == (forall|t: int| 0 <= t < tags.len() ==> meets_tag(item@, #[trigger] tag_views(tags@)[t])),
{
    let mut i: usize = 0;
    while i < tags.len()
        invariant
            i <= tags.len(),
            forall|t: int| 0 <= t < i ==> meets_tag(item@, #[trigger] tag_views(tags@)[t]),
        decreases tags.len() - i,
    {
        if !item.matches_tag(tags[i].as_str()) {
            assert(!meets_tag(item@, tag_views(tags@)[i as int]));
            return false;
        }
        i += 1;
    }
    true
}

/// Lists the items that pass the tag terms `tags` and, where given, the
/// year filter `year`, as indices into `items` in display order. Fails
/// where the year filter cannot be read.
pub fn list_order(items: &Vec<Media>, tags: &Vec<String>, year: Option<&str>) -> (r: Result<
    Vec<usize>,
    YearFilterError,
>)
    ensures
        match year {
            Some(y) => year_bounds(y@) is Err <==> r is Err,
            None => r is Ok,
        },
        r matches Err(e) ==> year matches Some(y) && year_bounds(y@) == Err::<(int, int), YearFilterError>(e),
        r matches Ok(order) ==> is_listing(
            item_views(items@),
            tag_views(tags@),
            match year {
                Some(y) => Some(year_bounds(y@)->Ok_0),
                None => None,
            },
            order@,
        ),
{
    let bounds: Option<(u16, u16)> = match year {
        Some(y) => match get_year_min_max(y) {
            Ok(b) => Some(b),
            Err(e) => {
                return Err(e);
            },
        },
        None => None,
    };
    let ghost gb: Option<(int, int)> = match bounds {
        Some((lo, hi)) => Some((lo as int, hi as int)),
        None => None,
    };
    let ghost views = item_views(items@);
    let ghost tv = tag_views(tags@);
    let mut weights: Vec<usize> = Vec::new();
    let mut names: Vec<Vec<char>> = Vec::new();
    let mut k: usize = 0;
    while k < items.len()
        invariant
            k <= items.len(),
            weights.len() == k,
            names.len() == k,
            views == item_views(items@),
            forall|i: int| 0 <= i < k ==> #[trigger] weights@[i] == weight(views[i]),
            forall|i: int| 0 <= i < k ==> #[trigger] names@[i]@ == lowercase_of(views[i].name),
        decreases items.len() - k,
    {
        weights.push(get_weight(&items[k]));
        let lower = lowercase(items[k].name.as_str());
        names.push(chars_of(lower.as_str()));
        k += 1;
    }
    let mut order: Vec<usize> = Vec::new();
    let mut k: usize = 0;
    while k < items.len()
        invariant
            k <= items.len(),
            weights.len() == items.len(),
            names.len() == items.len(),
            views == item_views(items@),
            tv == tag_views(tags@),
            gb == match bounds {
                Some((lo, hi)) => Some((lo as int, hi as int)),
                None => None::<(int, int)>,
            },
            forall|i: int| 0 <= i < items.len() ==> #[trigger] weights@[i] == weight(views[i]),
            forall|i: int|
                0 <= i < items.len() ==> #[trigger] names@[i]@ == lowercase_of(views[i].name),
            forall|i: int| 0 <= i < order.len() ==> #[trigger] order@[i] < k,
            is_listing(views.take(k as int), tv, gb, order@),
        decreases items.len() - k,
    {
        let item = &items[k];
        let year_ok = match bounds {
            Some((lo, hi)) => match item.year {
                Some(y) => lo <= y && y <= hi,
                None => false,
            },
            None => true,
        };
        let keep = year_ok && meets_all(item, tags);
        let ghost old_order = order@;
        assert(views.take(k + 1).take(k as int) =~= views.take(k as int));
        if keep {
            let mut p = order.len();
            while p > 0 && (weights[k] > weights[order[p - 1]] || (weights[k] == weights[order[p
                - 1]] && lex_less(&names[k], &names[order[p - 1]])))
                invariant
                    p <= order.len(),
                    order@ == old_order,
                    weights.len() == items.len(),
                    names.len() == items.len(),
                    k < items.len(),
                    forall|i: int| 0 <= i < order.len() ==> #[trigger] order@[i] < k,
                    forall|i: int|
                        0 <= i < items.len() ==> #[trigger] weights@[i] == weight(views[i]),
                    forall|i: int|
                        0 <= i < items.len() ==> #[trigger] names@[i]@ == lowercase_of(
                            views[i].name,
                        ),
                    forall|q: int|
                        p <= q < order.len() ==> ranks_before(
                            views[k as int],
                            views[#[trigger] order@[q] as int],
                        ),
                decreases p,
            {
                p -= 1;
            }
            order.insert(p, k);
            proof {
                lemma_insert_keeps_listing(views, tv, gb, old_order, k as int, p as int);
            }
        } else {
            proof {
                lemma_skip_keeps_listing(views, tv, gb, old_order, k as int);
            }
        }
        k += 1;
    }
    assert(views.take(k as int) =~= views);
    Ok(order)
}

proof fn lemma_skip_keeps_listing(
    views: Seq<MediaView>,
    tags: Seq<Seq<char>>,
    bounds: Option<(int, int)>,
    order: Seq<usize>,
    k: int,
)
    requires
        0 <= k < views.len(),
        !selected(views[k], tags, bounds),
        forall|i: int| 0 <= i < order.len() ==> #[trigger] order[i] < k,
        is_listing(views.take(k), tags, bounds, order),
    ensures
        is_listing(views.take(k + 1), tags, bounds, order),
{
    let a = views.take(k);
    let b = views.take(k + 1);
    assert forall|i: int| 0 <= i < order.len() implies #[trigger] order[i] < b.len() && selected(
        b[order[i] as int],
        tags,
        bounds,
    ) by {
        assert(b[order[i] as int] == a[order[i] as int]);
    }
    assert forall|j: int| 0 <= j < b.len() && selected(#[trigger] b[j], tags, bounds) implies order.contains(
        j as usize,
    ) by {
        assert(j < k);
        assert(a[j] == b[j]);
    }
    assert forall|i: int| 0 <= i < order.len() - 1 implies !ranks_before(
        b[order[i + 1] as int],
        b[#[trigger] order[i] as int],
    ) by {
        assert(order[i + 1] < k);
        assert(b[order[i + 1] as int] == a[order[i + 1] as int]);
        assert(b[order[i] as int] == a[order[i] as int]);
    }
    assert forall|i: int, j: int|
        0 <= i < j < order.len() && !ranks_before(b[order[i] as int], b[order[j] as int])
            && !ranks_before(b[order[j] as int], b[order[i] as int]) implies #[trigger] order[i]
        < #[trigger] order[j] by {
        assert(b[order[i] as int] == a[order[i] as int]);
        assert(b[order[j] as int] == a[order[j] as int]);
    }
}

proof fn lemma_insert_keeps_listing(
    views: Seq<MediaView>,
    tags: Seq<Seq<char>>,
    bounds: Option<(int, int)>,
    order: Seq<usize>,
    k: int,
    p: int,
)
    requires
        0 <= k < views.len(),
        k <= usize::MAX,
        0 <= p <= order.len(),
        selected(views[k], tags, bounds),
        forall|i: int| 0 <= i < order.len() ==> #[trigger] order[i] < k,
        is_listing(views.take(k), tags, bounds, order),
        p > 0 ==> !ranks_before(views[k], views[order[p - 1] as int]),
        forall|q: int|
            p <= q < order.len() ==> ranks_before(views[k], views[#[trigger] order[q] as int]),
    ensures
        is_listing(views.take(k + 1), tags, bounds, order.insert(p, k as usize)),
{
    lemma_insert_members(views, tags, bounds, order, k, p);
    lemma_insert_complete(views, tags, bounds, order, k, p);
    lemma_insert_distinct(views, tags, bounds, order, k, p);
    lemma_insert_sorted(views, tags, bounds, order, k, p);
    lemma_insert_stable(views, tags, bounds, order, k, p);
}

proof fn lemma_insert_members(
    views: Seq<MediaView>,
    tags: Seq<Seq<char>>,
    bounds: Option<(int, int)>,
    order: Seq<usize>,
    k: int,
    p: int,
)
    requires
        0 <= k < views.len(),
        k <= usize::MAX,
        0 <= p <= order.len(),
        selected(views[k], tags, bounds),
        forall|i: int| 0 <= i < order.len() ==> #[trigger] order[i] < k,
        is_listing(views.take(k), tags, bounds, order),
        p > 0 ==> !ranks_before(views[k], views[order[p - 1] as int]),
        forall|q: int|
            p <= q < order.len() ==> ranks_before(views[k], views[#[trigger] order[q] as int]),
    ensures
        lists_only_selected(views.take(k + 1), tags, bounds, order.insert(p, k as usize)),
{
    let a = views.take(k);
    let b = views.take(k + 1);
    let o = order.insert(p, k as usize);
    assert forall|i: int| 0 <= i < order.len() implies #[trigger] b[order[i] as int] == a[order[i] as int] by {}
    assert forall|i: int| 0 <= i < o.len() implies #[trigger] o[i] < b.len() && selected(
        b[o[i] as int],
        tags,
        bounds,
    ) by {
        if i < p {
            assert(o[i] == order[i]);
        } else if i > p {
            assert(o[i] == order[i - 1]);
        }
    }
}

proof fn lemma_insert_complete(
    views: Seq<MediaView>,
    tags: Seq<Seq<char>>,
    bounds: Option<(int, int)>,
    order: Seq<usize>,
    k: int,
    p: int,
)
    requires
        0 <= k < views.len(),
        k <= usize::MAX,
        0 <= p <= order.len(),
        selected(views[k], tags, bounds),
        forall|i: int| 0 <= i < order.len() ==> #[trigger] order[i] < k,
        is_listing(views.take(k), tags, bounds, order),
        p > 0 ==> !ranks_before(views[k], views[order[p - 1] as int]),
        forall|q: int|
            p <= q < order.len() ==> ranks_before(views[k], views[#[trigger] order[q] as int]),
    ensures
        lists_all_selected(views.take(k + 1), tags, bounds, order.insert(p, k as usize)),
{
    let a = views.take(k);
    let b = views.take(k + 1);
    let o = order.insert(p, k as usize);
    assert forall|i: int| 0 <= i < order.len() implies #[trigger] b[order[i] as int] == a[order[i] as int] by {}
    assert forall|j: int| 0 <= j < b.len() && selected(#[trigger] b[j], tags, bounds) implies o.contains(
        j as usize,
    ) by {
        if j == k {
            assert(o[p] == k);
        } else {
            assert(a[j] == b[j]);
            assert(order.contains(j as usize));
            let i = choose|i: int| 0 <= i < order.len() && order[i] == j as usize;
            if i < p {
                assert(o[i] == order[i]);
            } else {
                assert(o[i + 1] == order[i]);
            }
        }
    }
}

proof fn lemma_insert_distinct(
    views: Seq<MediaView>,
    tags: Seq<Seq<char>>,
    bounds: Option<(int, int)>,
    order: Seq<usize>,
    k: int,
    p: int,
)
    requires
        0 <= k < views.len(),
        k <= usize::MAX,
        0 <= p <= order.len(),
        selected(views[k], tags, bounds),
        forall|i: int| 0 <= i < order.len() ==> #[trigger] order[i] < k,
        is_listing(views.take(k), tags, bounds, order),
        p > 0 ==> !ranks_before(views[k], views[order[p - 1] as int]),
        forall|q: int|
            p <= q < order.len() ==> ranks_before(views[k], views[#[trigger] order[q] as int]),
    ensures
        order.insert(p, k as usize).no_duplicates(),
{
    let o = order.insert(p, k as usize);
    assert forall|i: int, j: int| 0 <= i < o.len() && 0 <= j < o.len() && i != j implies o[i]
        != o[j] by {
        let oi = if i < p {
            i
        } else {
            i - 1
        };
        let oj = if j < p {
            j
        } else {
            j - 1
        };
        if i != p {
            assert(o[i] == order[oi]);
        }
        if j != p {
            assert(o[j] == order[oj]);
        }
    }
}

proof fn lemma_insert_sorted(
    views: Seq<MediaView>,
    tags: Seq<Seq<char>>,
    bounds: Option<(int, int)>,
    order: Seq<usize>,
    k: int,
    p: int,
)
    requires
        0 <= k < views.len(),
        k <= usize::MAX,
        0 <= p <= order.len(),
        selected(views[k], tags, bounds),
        forall|i: int| 0 <= i < order.len() ==> #[trigger] order[i] < k,
        is_listing(views.take(k), tags, bounds, order),
        p > 0 ==> !ranks_before(views[k], views[order[p - 1] as int]),
        forall|q: int|
            p <= q < order.len() ==> ranks_before(views[k], views[#[trigger] order[q] as int]),
    ensures
        sorted_by_rank(views.take(k + 1), order.insert(p, k as usize)),
{
    let a = views.take(k);
    let b = views.take(k + 1);
    let o = order.insert(p, k as usize);
    assert forall|i: int| 0 <= i < order.len() implies #[trigger] b[order[i] as int] == a[order[i] as int] by {}
    assert forall|i: int| 0 <= i < o.len() - 1 implies !ranks_before(
        b[o[i + 1] as int],
        b[#[trigger] o[i] as int],
    ) by {
        if i + 1 < p {
            assert(o[i] == order[i] && o[i + 1] == order[i + 1]);
        } else if i + 1 == p {
            assert(o[i] == order[i]);
            assert(o[i + 1] == k);
        } else if i == p {
            assert(o[i] == k);
            assert(o[i + 1] == order[i]);
            lemma_ranks_asymmetric(views[k], views[order[i] as int]);
        } else {
            assert(o[i] == order[i - 1] && o[i + 1] == order[i]);
        }
    }
}

#[verifier::rlimit(50)]
proof fn lemma_insert_stable(
    views: Seq<MediaView>,
    tags: Seq<Seq<char>>,
    bounds: Option<(int, int)>,
    order: Seq<usize>,
    k: int,
    p: int,
)
    requires
        0 <= k < views.len(),
        k <= usize::MAX,
        0 <= p <= order.len(),
        forall|i: int| 0 <= i < order.len() ==> #[trigger] order[i] < k,
        stable_in_rank(views.take(k), order),
        forall|q: int|
            p <= q < order.len() ==> ranks_before(views[k], views[#[trigger] order[q] as int]),
    ensures
        stable_in_rank(views.take(k + 1), order.insert(p, k as usize)),
{
    let a = views.take(k);
    let b = views.take(k + 1);
    let o = order.insert(p, k as usize);
    assert forall|i: int| 0 <= i < order.len() implies #[trigger] b[order[i] as int] == a[order[i] as int] by {}
    assert forall|i: int, j: int|
        0 <= i < j < o.len() && !ranks_before(b[o[i] as int], b[o[j] as int]) && !ranks_before(
            b[o[j] as int],
            b[o[i] as int],
        ) implies #[trigger] o[i] < #[trigger] o[j] by {
        if j == p {
            assert(o[i] == order[i]);
        } else if i == p {
            assert(o[j] == order[j - 1]);
            assert(ranks_before(views[k], views[order[j - 1] as int]));
        } else {
            let oi = if i < p {
                i
            } else {
                i - 1
            };
            let oj = if j < p {
                j
            } else {
                j - 1
            };
            assert(o[i] == order[oi]);
            assert(o[j] == order[oj]);
        }
    }
}

/// An item without a year passes no year filter.
pub proof fn lemma_no_year_no_match(m: MediaView, tags: Seq<Seq<char>>, lo: int, hi: int)
    requires
        m.year is None,
    ensures
        !selected(m, tags, Some((lo, hi))),
{
}

/// The highest rating among the items, 0 where none is rated.
pub open spec fn max_rating_of(items: Seq<MediaView>) -> int
    decreases items.len(),
{
    if items.len() == 0 {
        0
    } else {
        let rest = max_rating_of(items.drop_last());
        let r = match items.last().rating {
            Some(r) => r as int,
            None => 0,
        };
        if r > rest {
            r
        } else {
            rest
        }
    }
}

/// The highest rating among the items, 0 where none is rated.
pub fn max_rating(items: &Vec<Media>) -> (r: u8)
    ensures
        r == max_rating_of(item_views(items@)),
{
    let ghost views = item_views(items@);
    let mut best: u8 = 0;
    let mut k: usize = 0;
    assert(views.take(0) =~= Seq::<MediaView>::empty());
    while k < items.len()
        invariant
            k <= items.len(),
            views == item_views(items@),
            best == max_rating_of(views.take(k as int)),
        decreases items.len() - k,
    {
        let r = match items[k].rating {
            Some(r) => r,
            None => 0,
        };
        if r > best {
            best = r;
        }
        assert(views.take(k + 1).drop_last() =~= views.take(k as int));
        k += 1;
    }
    assert(views.take(k as int) =~= views);
    best
}

} // verus!
