//! Reading the text that an item is written as gives the item back.
use vstd::prelude::*;
use crate::date::{date_text, is_plain_iso_text, padded, plain_iso_date, Date};
use crate::media::{bare_item, MediaView};
use crate::parser::{
    apply_line, apply_lines, decode, encode, field, join_tags, key_last_seen, key_note, key_rating,
    key_tags, key_year, last_seen_field, last_seen_of, note_field, rating_field,
    tags_field, tags_of, year_field,
};
use crate::text::{
    decimal, digits_fold, digits_number, index_of, is_digit, is_space, lemma_decimal,
    lemma_digit_char, lemma_index_of, lines, parse_uint, split_on, strip_cr, trim, trim_end,
    trim_start,
};

verus! {

/// A non-empty text that starts and ends with a character other than white
/// space.
pub open spec fn is_trimmed_word(s: Seq<char>) -> bool {
    &&& s.len() > 0
    &&& !is_space(s[0])
    &&& !is_space(s.last())
}

/// A text without the character `c`.
pub open spec fn lacks(s: Seq<char>, c: char) -> bool {
    forall|k: int| 0 <= k < s.len() ==> s[k] != c
}

/// A text that stands as one line of a record: non-empty, without line
/// breaks, and not ending in a carriage return.
pub open spec fn is_clean_line(s: Seq<char>) -> bool {
    &&& s.len() > 0
    &&& lacks(s, '\n')
    &&& s.last() != '\r'
}

/// An item that its record text describes exactly: a name that is one line,
/// tags and a note that are trimmed, one-line words (tags also without
/// commas), and a date, if any, with a year of four digits.
pub open spec fn is_writable(m: MediaView) -> bool {
    &&& is_clean_line(m.name)
    &&& forall|i: int|
        0 <= i < m.tags.len() ==> is_trimmed_word(#[trigger] m.tags[i]) && lacks(m.tags[i], '\n')
            && lacks(m.tags[i], ',')
    &&& m.note.len() > 0 ==> is_trimmed_word(m.note) && lacks(m.note, '\n')
    &&& m.last_seen matches Some(d) ==> d.valid() && 0 <= d.year <= 9999
}

/// The lines after the name, each preceded by a line break.
pub open spec fn nl_join(ls: Seq<Seq<char>>) -> Seq<char>
    decreases ls.len(),
{
    if ls.len() == 0 {
        Seq::empty()
    } else {
        seq!['\n'] + ls[0] + nl_join(ls.drop_first())
    }
}

pub open spec fn prop_line(key: Seq<char>, value: Seq<char>) -> Seq<char> {
    key + seq![':', ' '] + value
}

pub open spec fn opt_line(present: bool, line: Seq<char>) -> Seq<Seq<char>> {
    if present {
        seq![line]
    } else {
        Seq::empty()
    }
}

/// The property lines of an item's record, in order.
pub open spec fn field_lines(m: MediaView) -> Seq<Seq<char>> {
    opt_line(m.year is Some, prop_line(key_year(), decimal(m.year->0 as nat))) + opt_line(
        m.rating is Some,
        prop_line(key_rating(), decimal(m.rating->0 as nat)),
    ) + opt_line(m.tags.len() > 0, prop_line(key_tags(), join_tags(m.tags))) + opt_line(
        m.note.len() > 0,
        prop_line(key_note(), m.note),
    ) + opt_line(m.last_seen is Some, prop_line(key_last_seen(), date_text(m.last_seen->0)))
}

proof fn lemma_no_char_index(s: Seq<char>, c: char)
    requires
        lacks(s, c),
    ensures
        index_of(s, c) == s.len(),
{
    lemma_index_of(s, c, s.len() as int);
}

proof fn lemma_lines_nl_join(a: Seq<char>, ls: Seq<Seq<char>>)
    requires
        is_clean_line(a),
        forall|i: int| 0 <= i < ls.len() ==> is_clean_line(#[trigger] ls[i]),
    ensures
        lines(a + nl_join(ls)) == seq![a] + ls,
    decreases ls.len(),
{
    let s = a + nl_join(ls);
    if ls.len() == 0 {
        assert(s =~= a);
        lemma_no_char_index(a, '\n');
        assert(seq![a] + ls =~= seq![a]);
    } else {
        let rest = ls.drop_first();
        assert(s =~= a + (seq!['\n'] + (ls[0] + nl_join(rest))));
        lemma_index_of(s, '\n', a.len() as int);
        assert(s.take(a.len() as int) =~= a);
        assert(s.skip(a.len() as int + 1) =~= ls[0] + nl_join(rest));
        assert(is_clean_line(ls[0]));
        lemma_lines_nl_join(ls[0], rest);
        assert(seq![a] + ls =~= seq![a] + (seq![ls[0]] + rest));
        assert(strip_cr(a) == a);
    }
}

proof fn lemma_nl_join_add(x: Seq<Seq<char>>, y: Seq<Seq<char>>)
    ensures
        nl_join(x + y) == nl_join(x) + nl_join(y),
    decreases x.len(),
{
    if x.len() == 0 {
        assert(x + y =~= y);
        assert(nl_join(x) + nl_join(y) =~= nl_join(y));
    } else {
        assert((x + y).drop_first() =~= x.drop_first() + y);
        lemma_nl_join_add(x.drop_first(), y);
        assert(nl_join(x + y) =~= nl_join(x) + nl_join(y));
    }
}

proof fn lemma_nl_join_opt(present: bool, line: Seq<char>)
    ensures
        nl_join(opt_line(present, line)) == if present {
            seq!['\n'] + line
        } else {
            Seq::<char>::empty()
        },
{
    if present {
        let l = opt_line(present, line);
        assert(l.drop_first() =~= Seq::<Seq<char>>::empty());
        assert(l[0] == line);
        assert(nl_join(Seq::<Seq<char>>::empty()) == Seq::<char>::empty());
        assert(nl_join(l) =~= seq!['\n'] + line);
    }
}

proof fn lemma_opt_field(present: bool, key: Seq<char>, v: Seq<char>, f: Seq<char>)
    requires
        present ==> f == field(key, v),
        !present ==> f == Seq::<char>::empty(),
    ensures
        nl_join(opt_line(present, prop_line(key, v))) == f,
{
    lemma_nl_join_opt(present, prop_line(key, v));
    if present {
        assert(field(key, v) =~= seq!['\n'] + prop_line(key, v));
    }
}

proof fn lemma_join_five(
    o1: Seq<Seq<char>>,
    o2: Seq<Seq<char>>,
    o3: Seq<Seq<char>>,
    o4: Seq<Seq<char>>,
    o5: Seq<Seq<char>>,
    name: Seq<char>,
)
    ensures
        name + nl_join(o1) + nl_join(o2) + nl_join(o3) + nl_join(o4) + nl_join(o5) == name
            + nl_join(o1 + o2 + o3 + o4 + o5),
{
    lemma_nl_join_add(o1, o2);
    lemma_nl_join_add(o1 + o2, o3);
    lemma_nl_join_add(o1 + o2 + o3, o4);
    lemma_nl_join_add(o1 + o2 + o3 + o4, o5);
    assert(name + nl_join(o1) + nl_join(o2) + nl_join(o3) + nl_join(o4) + nl_join(o5) =~= name
        + nl_join(o1 + o2 + o3 + o4 + o5));
}

/// The record text is the name followed by the property lines.
proof fn lemma_encode_lines(m: MediaView)
    ensures
        encode(m) == m.name + nl_join(field_lines(m)),
{
    lemma_opt_field(m.year is Some, key_year(), decimal(m.year->0 as nat), year_field(m.year));
    lemma_opt_field(
        m.rating is Some,
        key_rating(),
        decimal(m.rating->0 as nat),
        rating_field(m.rating),
    );
    lemma_opt_field(m.tags.len() > 0, key_tags(), join_tags(m.tags), tags_field(m.tags));
    lemma_opt_field(m.note.len() > 0, key_note(), m.note, note_field(m.note));
    lemma_opt_field(
        m.last_seen is Some,
        key_last_seen(),
        date_text(m.last_seen->0),
        last_seen_field(m.last_seen),
    );
    lemma_join_five(
        opt_line(m.year is Some, prop_line(key_year(), decimal(m.year->0 as nat))),
        opt_line(m.rating is Some, prop_line(key_rating(), decimal(m.rating->0 as nat))),
        opt_line(m.tags.len() > 0, prop_line(key_tags(), join_tags(m.tags))),
        opt_line(m.note.len() > 0, prop_line(key_note(), m.note)),
        opt_line(m.last_seen is Some, prop_line(key_last_seen(), date_text(m.last_seen->0))),
        m.name,
    );
}

proof fn lemma_apply_opt(
    present: bool,
    line: Seq<char>,
    rest: Seq<Seq<char>>,
    m0: MediaView,
    m1: MediaView,
)
    requires
        present ==> apply_line(line, m0) == Ok::<MediaView, crate::parser::DecodeErrorView>(m1),
        !present ==> m1 == m0,
    ensures
        apply_lines(opt_line(present, line) + rest, m0) == apply_lines(rest, m1),
{
    let l = opt_line(present, line) + rest;
    if present {
        assert(l[0] == line);
        assert(l.drop_first() =~= rest);
    } else {
        assert(l =~= rest);
    }
}

proof fn lemma_trim_word(s: Seq<char>)
    requires
        is_trimmed_word(s),
    ensures
        trim(s) == s,
        trim(seq![' '] + s) == s,
{
    assert(trim_start(s) == s);
    assert(trim_end(s) == s);
    let t = seq![' '] + s;
    assert(is_space(t[0]));
    assert(t.drop_first() =~= s);
    assert(trim_start(t) == trim_start(s));
}

proof fn lemma_digit_not_space(c: char)
    requires
        is_digit(c),
    ensures
        !is_space(c),
        c != '\n' && c != ',' && c != ':' && c != '\r',
{
}

/// A property line splits at the colon after its key, and its value is the
/// trimmed word after the space.
proof fn lemma_prop_line(key: Seq<char>, v: Seq<char>)
    requires
        key.len() > 0,
        lacks(key, ':'),
        is_trimmed_word(v),
    ensures
        prop_line(key, v).len() > 0,
        index_of(prop_line(key, v), ':') == key.len(),
        prop_line(key, v).take(key.len() as int) == key,
        trim(prop_line(key, v).skip(key.len() as int + 1)) == v,
{
    let l = prop_line(key, v);
    lemma_index_of(l, ':', key.len() as int);
    assert(l.take(key.len() as int) =~= key);
    assert(l.skip(key.len() as int + 1) =~= seq![' '] + v);
    lemma_trim_word(v);
}

proof fn lemma_clean_prop_line(key: Seq<char>, v: Seq<char>)
    requires
        key.len() > 0,
        lacks(key, '\n'),
        lacks(v, '\n'),
        is_trimmed_word(v),
    ensures
        is_clean_line(prop_line(key, v)),
{
    let l = prop_line(key, v);
    assert(l.last() == v.last());
    assert forall|k: int| 0 <= k < l.len() implies l[k] != '\n' by {
        if k >= key.len() + 2 {
            assert(l[k] == v[k - key.len() - 2]);
        }
    }
}

proof fn lemma_fold_decimal(n: nat, max: int)
    requires
        n <= max,
    ensures
        digits_fold(decimal(n), max) == Ok::<int, crate::text::IntError>(n as int),
    decreases n,
{
    lemma_decimal(n);
    lemma_digit_char(n % 10);
    if n < 10 {
        lemma_digit_char(n);
        assert(decimal(n).drop_last() =~= Seq::<char>::empty());
        assert(decimal(n).last() == crate::text::digit_char(n));
        assert(digits_fold(Seq::<char>::empty(), max) == Ok::<int, crate::text::IntError>(0));
    } else {
        lemma_fold_decimal(n / 10, max);
        assert(decimal(n).drop_last() =~= decimal(n / 10));
        assert(decimal(n).last() == crate::text::digit_char(n % 10));
        assert((n / 10) * 10 + n % 10 == n) by (nonlinear_arith);
    }
}

/// The decimal text of a number is a trimmed, one-line word that reads back
/// as the number.
proof fn lemma_decimal_word(n: nat, max: int)
    requires
        n <= max,
    ensures
        is_trimmed_word(decimal(n)),
        lacks(decimal(n), '\n'),
        parse_uint(decimal(n), max) == Ok::<int, crate::text::IntError>(n as int),
{
    lemma_decimal(n);
    let d = decimal(n);
    lemma_digit_not_space(d[0]);
    lemma_digit_not_space(d.last());
    assert forall|k: int| 0 <= k < d.len() implies d[k] != '\n' by {
        lemma_digit_not_space(d[k]);
    }
    lemma_fold_decimal(n, max);
}

proof fn lemma_join_props(t: Seq<Seq<char>>)
    requires
        t.len() >= 1,
        forall|i: int|
            0 <= i < t.len() ==> is_trimmed_word(#[trigger] t[i]) && lacks(t[i], '\n'),
    ensures
        is_trimmed_word(join_tags(t)),
        lacks(join_tags(t), '\n'),
        join_tags(t)[0] == t[0][0],
    decreases t.len(),
{
    assert(is_trimmed_word(t[0]) && lacks(t[0], '\n'));
    if t.len() > 1 {
        let rest = t.drop_first();
        assert forall|i: int| 0 <= i < rest.len() implies is_trimmed_word(#[trigger] rest[i])
            && lacks(rest[i], '\n') by {
            assert(rest[i] == t[i + 1]);
        }
        lemma_join_props(rest);
        let j = join_tags(t);
        let a = t[0] + seq![',', ' '];
        assert(j =~= a + join_tags(rest));
        assert(j.last() == join_tags(rest).last());
        assert forall|k: int| 0 <= k < j.len() implies j[k] != '\n' by {
            if k >= a.len() {
                assert(j[k] == join_tags(rest)[k - a.len()]);
            } else if k < t[0].len() {
                assert(j[k] == t[0][k]);
            }
        }
    }
}

/// Splitting joined tags at the commas and trimming the pieces gives the
/// tags back.
proof fn lemma_split_join(t: Seq<Seq<char>>, lead: Seq<char>)
    requires
        t.len() >= 1,
        lacks(lead, ','),
        trim(lead + t[0]) == t[0],
        forall|i: int|
            0 <= i < t.len() ==> is_trimmed_word(#[trigger] t[i]) && lacks(t[i], ','),
    ensures
        split_on(lead + join_tags(t), ',').map_values(|p: Seq<char>| trim(p)) == t,
    decreases t.len(),
{
    let s = lead + join_tags(t);
    let first = lead + t[0];
    assert(lacks(t[0], ','));
    assert(lacks(first, ',')) by {
        assert forall|k: int| 0 <= k < first.len() implies first[k] != ',' by {
            if k >= lead.len() {
                assert(first[k] == t[0][k - lead.len()]);
            }
        }
    }
    if t.len() == 1 {
        assert(s =~= first);
        lemma_index_of(s, ',', s.len() as int);
        assert(split_on(s, ',') == seq![s]);
        assert(split_on(s, ',').map_values(|p: Seq<char>| trim(p)) =~= t);
    } else {
        let rest = t.drop_first();
        let tail = seq![' '] + join_tags(rest);
        assert(s =~= first + (seq![','] + tail));
        lemma_index_of(s, ',', first.len() as int);
        assert(s.take(first.len() as int) =~= first);
        assert(s.skip(first.len() as int + 1) =~= tail);
        assert forall|i: int| 0 <= i < rest.len() implies is_trimmed_word(#[trigger] rest[i])
            && lacks(rest[i], ',') by {
            assert(rest[i] == t[i + 1]);
        }
        assert(is_trimmed_word(rest[0]));
        lemma_trim_word(rest[0]);
        assert(lacks(seq![' '], ','));
        lemma_split_join(rest, seq![' ']);
        assert(split_on(s, ',') == seq![first] + split_on(tail, ','));
        assert(split_on(s, ',').map_values(|p: Seq<char>| trim(p)) =~= seq![trim(first)]
            + split_on(tail, ',').map_values(|p: Seq<char>| trim(p)));
        assert(seq![t[0]] + rest =~= t);
    }
}

proof fn lemma_tags_round_trip(t: Seq<Seq<char>>)
    requires
        t.len() >= 1,
        forall|i: int|
            0 <= i < t.len() ==> is_trimmed_word(#[trigger] t[i]) && lacks(t[i], ',') && lacks(
                t[i],
                '\n',
            ),
    ensures
        tags_of(join_tags(t)) == Ok::<Seq<Seq<char>>, crate::parser::DecodeErrorView>(t),
        is_trimmed_word(join_tags(t)),
        lacks(join_tags(t), '\n'),
{
    lemma_join_props(t);
    assert(is_trimmed_word(t[0]));
    lemma_trim_word(t[0]);
    assert(Seq::<char>::empty() + join_tags(t) =~= join_tags(t));
    assert(Seq::<char>::empty() + t[0] =~= t[0]);
    lemma_split_join(t, Seq::<char>::empty());
    assert(!t.contains(Seq::<char>::empty())) by {
        if t.contains(Seq::<char>::empty()) {
            let i = choose|i: int| 0 <= i < t.len() && t[i] == Seq::<char>::empty();
            assert(is_trimmed_word(t[i]));
        }
    }
}

proof fn lemma_zeros_prefix(z: nat, d: Seq<char>)
    ensures
        digits_number(Seq::new(z, |i: int| '0') + d) == digits_number(d),
        digits_number(Seq::new(z, |i: int| '0')) == 0,
    decreases d.len() + z,
{
    let zs = Seq::new(z, |i: int| '0');
    if d.len() == 0 {
        assert(zs + d =~= zs);
        if z > 0 {
            lemma_zeros_prefix((z - 1) as nat, d);
            assert(zs.drop_last() =~= Seq::new((z - 1) as nat, |i: int| '0'));
        }
    } else {
        lemma_zeros_prefix(z, d.drop_last());
        assert((zs + d).drop_last() =~= zs + d.drop_last());
        assert((zs + d).last() == d.last());
    }
}

proof fn lemma_padded(n: nat, w: nat)
    requires
        decimal(n).len() <= w,
    ensures
        padded(n, w).len() == w,
        forall|k: int| 0 <= k < w ==> is_digit(#[trigger] padded(n, w)[k]),
        digits_number(padded(n, w)) == n,
{
    lemma_decimal(n);
    let d = decimal(n);
    let zs = Seq::new((w - d.len()) as nat, |i: int| '0');
    if d.len() < w {
        lemma_zeros_prefix((w - d.len()) as nat, d);
        assert forall|k: int| 0 <= k < w implies is_digit(#[trigger] padded(n, w)[k]) by {
            if k >= zs.len() {
                assert(padded(n, w)[k] == d[k - zs.len()]);
            }
        }
    }
}

proof fn lemma_date_round_trip(d: Date)
    requires
        d.valid(),
        0 <= d.year <= 9999,
    ensures
        last_seen_of(date_text(d)) == Ok::<Date, crate::parser::DecodeErrorView>(d),
        is_trimmed_word(date_text(d)),
        lacks(date_text(d), '\n'),
{
    lemma_decimal(d.year as nat);
    lemma_decimal(d.month as nat);
    lemma_decimal(d.day as nat);
    lemma_padded(d.year as nat, 4);
    lemma_padded(d.month as nat, 2);
    lemma_padded(d.day as nat, 2);
    let ys = padded(d.year as nat, 4);
    let ms = padded(d.month as nat, 2);
    let ds = padded(d.day as nat, 2);
    let t = date_text(d);
    assert(t =~= ys + seq!['-'] + ms + seq!['-'] + ds);
    assert(t.take(4) =~= ys);
    assert(t.subrange(5, 7) =~= ms);
    assert(t.subrange(8, 10) =~= ds);
    assert(t[0] == ys[0] && t[9] == ds[1]);
    assert forall|i: int| 0 <= i < 10 && i != 4 && i != 7 implies is_digit(#[trigger] t[i]) by {
        if i < 4 {
            assert(t[i] == ys[i]);
        } else if i < 7 {
            assert(t[i] == ms[i - 5]);
        } else {
            assert(t[i] == ds[i - 8]);
        }
    }
    assert(is_plain_iso_text(t));
    assert(plain_iso_date(t) == Some(d));
    lemma_digit_not_space(t[0]);
    lemma_digit_not_space(t[9]);
    assert forall|k: int| 0 <= k < t.len() implies t[k] != '\n' by {
        if k != 4 && k != 7 {
            lemma_digit_not_space(t[k]);
        }
    }
}

proof fn lemma_keys()
    ensures
        lacks(key_year(), ':') && lacks(key_year(), '\n'),
        lacks(key_rating(), ':') && lacks(key_rating(), '\n'),
        lacks(key_tags(), ':') && lacks(key_tags(), '\n'),
        lacks(key_note(), ':') && lacks(key_note(), '\n'),
        lacks(key_last_seen(), ':') && lacks(key_last_seen(), '\n'),
{
}

proof fn lemma_year_line(y: u16, mm: MediaView)
    ensures
        apply_line(prop_line(key_year(), decimal(y as nat)), mm) == Ok::<
            MediaView,
            crate::parser::DecodeErrorView,
        >(MediaView { year: Some(y), ..mm }),
        is_clean_line(prop_line(key_year(), decimal(y as nat))),
{
    lemma_keys();
    lemma_decimal_word(y as nat, 65535);
    lemma_prop_line(key_year(), decimal(y as nat));
    lemma_clean_prop_line(key_year(), decimal(y as nat));
}

proof fn lemma_rating_line(r: u8, mm: MediaView)
    ensures
        apply_line(prop_line(key_rating(), decimal(r as nat)), mm) == Ok::<
            MediaView,
            crate::parser::DecodeErrorView,
        >(MediaView { rating: Some(r), ..mm }),
        is_clean_line(prop_line(key_rating(), decimal(r as nat))),
{
    lemma_keys();
    lemma_decimal_word(r as nat, 255);
    lemma_prop_line(key_rating(), decimal(r as nat));
    lemma_clean_prop_line(key_rating(), decimal(r as nat));
    assert(key_rating() != key_year()) by {
        assert(key_rating().len() != key_year().len());
    }
}

proof fn lemma_tags_line(t: Seq<Seq<char>>, mm: MediaView)
    requires
        t.len() >= 1,
        forall|i: int|
            0 <= i < t.len() ==> is_trimmed_word(#[trigger] t[i]) && lacks(t[i], ',') && lacks(
                t[i],
                '\n',
            ),
    ensures
        apply_line(prop_line(key_tags(), join_tags(t)), mm) == Ok::<
            MediaView,
            crate::parser::DecodeErrorView,
        >(MediaView { tags: t, ..mm }),
        is_clean_line(prop_line(key_tags(), join_tags(t))),
{
    lemma_keys();
    lemma_tags_round_trip(t);
    lemma_prop_line(key_tags(), join_tags(t));
    lemma_clean_prop_line(key_tags(), join_tags(t));
    assert(key_tags() != key_year()) by {
        assert(key_tags()[0] != key_year()[0]);
    }
    assert(key_tags() != key_rating()) by {
        assert(key_tags().len() != key_rating().len());
    }
}

proof fn lemma_note_line(note: Seq<char>, mm: MediaView)
    requires
        is_trimmed_word(note),
        lacks(note, '\n'),
    ensures
        apply_line(prop_line(key_note(), note), mm) == Ok::<
            MediaView,
            crate::parser::DecodeErrorView,
        >(MediaView { note, ..mm }),
        is_clean_line(prop_line(key_note(), note)),
{
    lemma_keys();
    lemma_prop_line(key_note(), note);
    lemma_clean_prop_line(key_note(), note);
    assert(key_note() != key_year()) by {
        assert(key_note()[0] != key_year()[0]);
    }
    assert(key_note() != key_rating()) by {
        assert(key_note().len() != key_rating().len());
    }
    assert(key_note() != key_tags()) by {
        assert(key_note()[0] != key_tags()[0]);
    }
}

proof fn lemma_last_seen_line(d: Date, mm: MediaView)
    requires
        d.valid(),
        0 <= d.year <= 9999,
    ensures
        apply_line(prop_line(key_last_seen(), date_text(d)), mm) == Ok::<
            MediaView,
            crate::parser::DecodeErrorView,
        >(MediaView { last_seen: Some(d), ..mm }),
        is_clean_line(prop_line(key_last_seen(), date_text(d))),
{
    lemma_keys();
    lemma_date_round_trip(d);
    lemma_prop_line(key_last_seen(), date_text(d));
    lemma_clean_prop_line(key_last_seen(), date_text(d));
    assert(key_last_seen() != key_year()) by {
        assert(key_last_seen().len() != key_year().len());
    }
    assert(key_last_seen() != key_rating()) by {
        assert(key_last_seen().len() != key_rating().len());
    }
    assert(key_last_seen() != key_tags()) by {
        assert(key_last_seen().len() != key_tags().len());
    }
    assert(key_last_seen() != key_note()) by {
        assert(key_last_seen().len() != key_note().len());
    }
}

proof fn lemma_lines_of_encode(m: MediaView)
    requires
        is_writable(m),
    ensures
        lines(encode(m)) == seq![m.name] + field_lines(m),
{
    lemma_encode_lines(m);
    let l1 = prop_line(key_year(), decimal(m.year->0 as nat));
    let l2 = prop_line(key_rating(), decimal(m.rating->0 as nat));
    let l3 = prop_line(key_tags(), join_tags(m.tags));
    let l4 = prop_line(key_note(), m.note);
    let l5 = prop_line(key_last_seen(), date_text(m.last_seen->0));
    let mm = bare_item(m.name, None);
    lemma_year_line(m.year->0, mm);
    lemma_rating_line(m.rating->0, mm);
    if m.tags.len() > 0 {
        lemma_tags_line(m.tags, mm);
    }
    if m.note.len() > 0 {
        lemma_note_line(m.note, mm);
    }
    if m.last_seen is Some {
        lemma_last_seen_line(m.last_seen->0, mm);
    }
    let ls = field_lines(m);
    assert forall|i: int| 0 <= i < ls.len() implies is_clean_line(#[trigger] ls[i]) by {
        assert(ls[i] == l1 || ls[i] == l2 || ls[i] == l3 || ls[i] == l4 || ls[i] == l5);
    }
    lemma_lines_nl_join(m.name, ls);
}

proof fn lemma_apply_fields(m: MediaView)
    requires
        is_writable(m),
    ensures
        apply_lines(field_lines(m), bare_item(m.name, None)) == Ok::<
            MediaView,
            crate::parser::DecodeErrorView,
        >(m),
{
    let l1 = prop_line(key_year(), decimal(m.year->0 as nat));
    let l2 = prop_line(key_rating(), decimal(m.rating->0 as nat));
    let l3 = prop_line(key_tags(), join_tags(m.tags));
    let l4 = prop_line(key_note(), m.note);
    let l5 = prop_line(key_last_seen(), date_text(m.last_seen->0));
    let m0 = bare_item(m.name, None);
    let m1 = MediaView { year: m.year, ..m0 };
    let m2 = MediaView { rating: m.rating, ..m1 };
    let m3 = MediaView { tags: m.tags, ..m2 };
    let m4 = MediaView { note: m.note, ..m3 };
    let m5 = MediaView { last_seen: m.last_seen, ..m4 };
    lemma_year_line(m.year->0, m0);
    lemma_rating_line(m.rating->0, m1);
    if m.tags.len() > 0 {
        lemma_tags_line(m.tags, m2);
    } else {
        assert(m3.tags =~= m2.tags);
    }
    if m.note.len() > 0 {
        lemma_note_line(m.note, m3);
    } else {
        assert(m4.note =~= m3.note);
    }
    if m.last_seen is Some {
        lemma_last_seen_line(m.last_seen->0, m4);
    }
    assert(m5 == m);
    let o1 = opt_line(m.year is Some, l1);
    let o2 = opt_line(m.rating is Some, l2);
    let o3 = opt_line(m.tags.len() > 0, l3);
    let o4 = opt_line(m.note.len() > 0, l4);
    let o5 = opt_line(m.last_seen is Some, l5);
    assert(field_lines(m) =~= o1 + (o2 + (o3 + (o4 + o5))));
    lemma_apply_opt(m.last_seen is Some, l5, Seq::empty(), m4, m5);
    assert(o5 + Seq::<Seq<char>>::empty() =~= o5);
    lemma_apply_opt(m.note.len() > 0, l4, o5, m3, m4);
    lemma_apply_opt(m.tags.len() > 0, l3, o4 + o5, m2, m3);
    lemma_apply_opt(m.rating is Some, l2, o3 + (o4 + o5), m1, m2);
    lemma_apply_opt(m.year is Some, l1, o2 + (o3 + (o4 + o5)), m0, m1);
}

/// Reading the record text of an item gives the item back, for every item
/// whose fields fit the record format: a one-line name, tags that are
/// trimmed one-line words without commas, a trimmed one-line note, and a
/// valid date with a four-digit year.
pub proof fn lemma_decode_encode(m: MediaView)
    requires
        is_writable(m),
    ensures
        decode(encode(m)) == Ok::<MediaView, crate::parser::DecodeErrorView>(m),
{
    lemma_lines_of_encode(m);
    lemma_apply_fields(m);
    let all = lines(encode(m));
    assert(all[0] == m.name);
    assert(all.drop_first() =~= field_lines(m));
}

} // verus!
