//! Character-level helpers shared by the record format and the handle
//! grammar: splitting, trimming, and decimal numbers.
use vstd::prelude::*;

verus! {

/// The characters of `s`, in order.
pub fn chars_of(s: &str) -> (r: Vec<char>)
    ensures
        r@ == s@,
{
    let mut r: Vec<char> = Vec::new();
    for c in it: s.chars()
        invariant
            r@ == it.seq().take(it.index() as int),
    {
        r.push(c);
    }
    r
}

/// Relies on `String`'s `FromIterator<&char>`: the string holds the given
/// characters, in order.
#[verifier::external_body]
pub(crate) fn string_of(v: &[char]) -> (r: String)
    ensures
        r@ == v@,
{
    v.iter().collect()
}

/// The characters `lo..hi` of `s`, as a new vector.
pub fn slice_of(s: &Vec<char>, lo: usize, hi: usize) -> (r: Vec<char>)
    requires
        lo <= hi <= s.len(),
    ensures
        r@ == s@.subrange(lo as int, hi as int),
{
    let mut r: Vec<char> = Vec::new();
    let mut i = lo;
    while i < hi
        invariant
            lo <= i <= hi <= s.len(),
            r@ == s@.subrange(lo as int, i as int),
        decreases hi - i,
    {
        r.push(s[i]);
        i += 1;
    }
    r
}

/// Appends the characters of `w` to `out`.
pub fn push_str(out: &mut Vec<char>, w: &str)
    ensures
        final(out)@ == old(out)@ + w@,
{
    let ghost start = out@;
    for c in it: w.chars()
        invariant
            out@ == start + it.seq().take(it.index() as int),
    {
        out.push(c);
    }
}

/// Whether `v` holds exactly the characters of `w`.
pub fn chars_eq(v: &Vec<char>, w: &str) -> (r: bool)
    ensures
        r == (v@ == w@),
{
    let wc = chars_of(w);
    if v.len() != wc.len() {
        return false;
    }
    let mut i: usize = 0;
    while i < v.len()
        invariant
            i <= v.len() == wc.len(),
            wc@ == w@,
            forall|k: int| 0 <= k < i ==> v@[k] == wc@[k],
        decreases v.len() - i,
    {
        if v[i] != wc[i] {
            assert(v@[i as int] != wc@[i as int]);
            return false;
        }
        i += 1;
    }
    assert(v@ =~= wc@);
    true
}

/// Index of the first `c` in `s`, or the length of `s` where there is none.
pub open spec fn index_of(s: Seq<char>, c: char) -> int
    decreases s.len(),
{
    if s.len() == 0 {
        0
    } else if s[0] == c {
        0
    } else {
        1 + index_of(s.drop_first(), c)
    }
}

pub proof fn lemma_index_of(s: Seq<char>, c: char, i: int)
    requires
        0 <= i <= s.len(),
        forall|k: int| 0 <= k < i ==> s[k] != c,
        i == s.len() || s[i] == c,
    ensures
        index_of(s, c) == i,
    decreases s.len(),
{
    if s.len() > 0 && i > 0 {
        lemma_index_of(s.drop_first(), c, i - 1);
    }
}

/// Position of the first `c` in `s` at or after `from`, or `s.len()`.
pub fn find_char(s: &Vec<char>, from: usize, c: char) -> (r: usize)
    requires
        from <= s.len(),
    ensures
        from <= r <= s.len(),
        r - from == index_of(s@.skip(from as int), c),
        forall|k: int| from <= k < r ==> s@[k] != c,
        r < s.len() ==> s@[r as int] == c,
{
    let mut i = from;
    while i < s.len() && s[i] != c
        invariant
            from <= i <= s.len(),
            forall|k: int| from <= k < i ==> s@[k] != c,
        decreases s.len() - i,
    {
        i += 1;
    }
    proof {
        lemma_index_of(s@.skip(from as int), c, i - from);
    }
    i
}

/// The pieces of `s` between occurrences of `c` (at least one piece).
pub open spec fn split_on(s: Seq<char>, c: char) -> Seq<Seq<char>>
    decreases s.len(),
{
    let i = index_of(s, c);
    if 0 <= i < s.len() {
        seq![s.take(i)] + split_on(s.skip(i + 1), c)
    } else {
        seq![s]
    }
}

/// A line without the carriage return that ended it.
pub open spec fn strip_cr(s: Seq<char>) -> Seq<char> {
    if s.len() > 0 && s.last() == '\r' {
        s.drop_last()
    } else {
        s
    }
}

/// The lines of `s`: pieces ended by `\n` (or `\r\n`), the last one
/// possibly unterminated; an empty text has no lines.
pub open spec fn lines(s: Seq<char>) -> Seq<Seq<char>>
    decreases s.len(),
{
    if s.len() == 0 {
        seq![]
    } else {
        let i = index_of(s, '\n');
        if 0 <= i < s.len() {
            seq![strip_cr(s.take(i))] + lines(s.skip(i + 1))
        } else {
            seq![s]
        }
    }
}

/// The views of a sequence of character vectors.
pub open spec fn views(v: Seq<Vec<char>>) -> Seq<Seq<char>> {
    v.map_values(|x: Vec<char>| x@)
}

/// The views of a sequence of strings.
pub open spec fn string_views(v: Seq<String>) -> Seq<Seq<char>> {
    v.map_values(|x: String| x@)
}

/// Splits `s` at every `c`.
pub fn split_char(s: &Vec<char>, c: char) -> (r: Vec<Vec<char>>)
    ensures
        views(r@) == split_on(s@, c),
{
    let mut r: Vec<Vec<char>> = Vec::new();
    let mut pos: usize = 0;
    assert(s@.skip(0) =~= s@);
    assert(views(r@) + split_on(s@, c) =~= split_on(s@, c));
    loop
        invariant
            pos <= s.len(),
            views(r@) + split_on(s@.skip(pos as int), c) == split_on(s@, c),
        decreases s.len() - pos,
    {
        let j = find_char(s, pos, c);
        let piece = slice_of(s, pos, j);
        let ghost rest = s@.skip(pos as int);
        let ghost before = views(r@);
        assert(piece@ =~= rest.take(j - pos));
        r.push(piece);
        assert(views(r@) =~= before.push(piece@));
        if j == s.len() {
            assert(rest =~= piece@);
            assert(views(r@) =~= before + split_on(rest, c));
            return r;
        }
        assert(rest.skip(j - pos + 1) =~= s@.skip(j + 1));
        assert(views(r@) + split_on(s@.skip(j + 1), c) =~= before + split_on(rest, c));
        pos = j + 1;
    }
}

/// Splits `s` into its lines.
pub fn lines_of(s: &Vec<char>) -> (r: Vec<Vec<char>>)
    ensures
        views(r@) == lines(s@),
{
    let mut r: Vec<Vec<char>> = Vec::new();
    let mut pos: usize = 0;
    assert(s@.skip(0) =~= s@);
    assert(views(r@) + lines(s@) =~= lines(s@));
    while pos < s.len()
        invariant
            pos <= s.len(),
            views(r@) + lines(s@.skip(pos as int)) == lines(s@),
        decreases s.len() - pos,
    {
        let ghost rest = s@.skip(pos as int);
        let ghost before = views(r@);
        let j = find_char(s, pos, '\n');
        if j == s.len() {
            let piece = slice_of(s, pos, j);
            assert(rest =~= piece@);
            r.push(piece);
            assert(views(r@) =~= before.push(piece@));
            assert(views(r@) + lines(s@.skip(j as int)) =~= before + lines(rest));
            pos = j;
        } else {
            let end = if j > pos && s[j - 1] == '\r' {
                j - 1
            } else {
                j
            };
            let piece = slice_of(s, pos, end);
            assert(piece@ =~= strip_cr(rest.take(j - pos)));
            r.push(piece);
            assert(views(r@) =~= before.push(piece@));
            assert(rest.skip(j - pos + 1) =~= s@.skip(j + 1));
            assert(views(r@) + lines(s@.skip(j + 1)) =~= before + lines(rest));
            pos = j + 1;
        }
    }
    assert(s@.skip(pos as int) =~= Seq::<char>::empty());
    assert(views(r@) =~= views(r@) + lines(s@.skip(pos as int)));
    r
}

/// Whether `c` has Unicode's `White_Space` property.
pub open spec fn is_space(c: char) -> bool {
    let u = c as u32;
    (0x9 <= u <= 0xD) || u == 0x20 || u == 0x85 || u == 0xA0 || u == 0x1680 || (0x2000 <= u
        <= 0x200A) || u == 0x2028 || u == 0x2029 || u == 0x202F || u == 0x205F || u == 0x3000
}

pub fn is_space_char(c: char) -> (r: bool)
    ensures
        r == is_space(c),
{
    let u = c as u32;
    (0x9 <= u && u <= 0xD) || u == 0x20 || u == 0x85 || u == 0xA0 || u == 0x1680 || (0x2000 <= u
        && u <= 0x200A) || u == 0x2028 || u == 0x2029 || u == 0x202F || u == 0x205F || u == 0x3000
}

/// `s` without its leading white space.
pub open spec fn trim_start(s: Seq<char>) -> Seq<char>
    decreases s.len(),
{
    if s.len() > 0 && is_space(s[0]) {
        trim_start(s.drop_first())
    } else {
        s
    }
}

/// `s` without its trailing white space.
pub open spec fn trim_end(s: Seq<char>) -> Seq<char>
    decreases s.len(),
{
    if s.len() > 0 && is_space(s.last()) {
        trim_end(s.drop_last())
    } else {
        s
    }
}

/// `s` without leading and trailing white space.
pub open spec fn trim(s: Seq<char>) -> Seq<char> {
    trim_end(trim_start(s))
}

/// Removes leading and trailing white space.
pub fn trim_chars(s: &Vec<char>) -> (r: Vec<char>)
    ensures
        r@ == trim(s@),
{
    let mut lo: usize = 0;
    assert(s@.skip(0) =~= s@);
    while lo < s.len() && is_space_char(s[lo])
        invariant
            lo <= s.len(),
            trim_start(s@.skip(lo as int)) == trim_start(s@),
        decreases s.len() - lo,
    {
        assert(s@.skip(lo as int).drop_first() =~= s@.skip(lo + 1));
        lo += 1;
    }
    let mut hi: usize = s.len();
    assert(s@.subrange(lo as int, hi as int) =~= s@.skip(lo as int));
    while hi > lo && is_space_char(s[hi - 1])
        invariant
            lo <= hi <= s.len(),
            trim_end(s@.subrange(lo as int, hi as int)) == trim(s@),
        decreases hi,
    {
        assert(s@.subrange(lo as int, hi as int).drop_last() =~= s@.subrange(
            lo as int,
            hi - 1,
        ));
        hi -= 1;
    }
    slice_of(s, lo, hi)
}

/// Why a text is not an unsigned integer.
#[derive(Clone, Copy, Debug, PartialEq, Eq, Structural)]
pub enum IntError {
    Empty,
    InvalidDigit,
    PosOverflow,
}

/// The wording of the standard library's integer parse errors.
pub open spec fn int_error_text(e: IntError) -> Seq<char> {
    match e {
        IntError::Empty => "cannot parse integer from empty string"@,
        IntError::InvalidDigit => "invalid digit found in string"@,
        IntError::PosOverflow => "number too large to fit in target type"@,
    }
}

impl IntError {
    /// The wording of the standard library's integer parse error.
    pub fn describe(&self) -> (r: &'static str)
        ensures
            r@ == int_error_text(*self),
    {
        match self {
            IntError::Empty => "cannot parse integer from empty string",
            IntError::InvalidDigit => "invalid digit found in string",
            IntError::PosOverflow => "number too large to fit in target type",
        }
    }
}

pub open spec fn is_digit(c: char) -> bool {
    48 <= c as u32 <= 57
}

pub open spec fn digit_value(c: char) -> int {
    c as u32 - 48
}

pub open spec fn digit_char(d: nat) -> char {
    (d + 48) as u8 as char
}

/// Reads the decimal digits of `s` left to right, failing at the first
/// non-digit or at the first prefix whose value exceeds `max`.
pub open spec fn digits_fold(s: Seq<char>, max: int) -> Result<int, IntError>
    decreases s.len(),
{
    if s.len() == 0 {
        Ok(0)
    } else {
        match digits_fold(s.drop_last(), max) {
            Err(e) => Err(e),
            Ok(v) => if !is_digit(s.last()) {
                Err(IntError::InvalidDigit)
            } else if v * 10 + digit_value(s.last()) > max {
                Err(IntError::PosOverflow)
            } else {
                Ok(v * 10 + digit_value(s.last()))
            },
        }
    }
}

/// A failure in a prefix is the failure of the whole text.
pub proof fn lemma_fold_err(s: Seq<char>, k: int, max: int)
    requires
        0 <= k <= s.len(),
        digits_fold(s.take(k), max) is Err,
    ensures
        digits_fold(s, max) == digits_fold(s.take(k), max),
    decreases s.len() - k,
{
    if k < s.len() {
        assert(s.take(k + 1).drop_last() =~= s.take(k));
        lemma_fold_err(s, k + 1, max);
    } else {
        assert(s.take(k) =~= s);
    }
}

/// An unsigned integer no larger than `max`, written in decimal with an
/// optional leading `+`.
pub open spec fn parse_uint(s: Seq<char>, max: int) -> Result<int, IntError> {
    if s.len() == 0 {
        Err(IntError::Empty)
    } else if s.len() == 1 && (s[0] == '+' || s[0] == '-') {
        Err(IntError::InvalidDigit)
    } else if s[0] == '+' {
        digits_fold(s.drop_first(), max)
    } else {
        digits_fold(s, max)
    }
}

/// Parses an unsigned decimal integer no larger than `max`.
pub fn parse_uint_chars(s: &Vec<char>, max: u16) -> (r: Result<u16, IntError>)
    ensures
        match r {
            Ok(v) => parse_uint(s@, max as int) == Ok::<int, IntError>(v as int),
            Err(e) => parse_uint(s@, max as int) == Err::<int, IntError>(e),
        },
{
    if s.len() == 0 {
        return Err(IntError::Empty);
    }
    if s.len() == 1 && (s[0] == '+' || s[0] == '-') {
        return Err(IntError::InvalidDigit);
    }
    let start: usize = if s[0] == '+' {
        1
    } else {
        0
    };
    let ghost digits = if s@[0] == '+' {
        s@.drop_first()
    } else {
        s@
    };
    assert(digits =~= s@.subrange(start as int, s.len() as int));
    let mut acc: u32 = 0;
    let mut i: usize = start;
    assert(s@.subrange(start as int, i as int) =~= Seq::<char>::empty());
    while i < s.len()
        invariant
            start <= i <= s.len(),
            acc <= max,
            parse_uint(s@, max as int) == digits_fold(s@.subrange(start as int, s.len() as int), max as int),
            digits_fold(s@.subrange(start as int, i as int), max as int) == Ok::<int, IntError>(
                acc as int,
            ),
        decreases s.len() - i,
    {
        let c = s[i];
        assert(s@.subrange(start as int, i + 1).drop_last() =~= s@.subrange(start as int, i as int));
        let ghost all = s@.subrange(start as int, s.len() as int);
        assert(all.take(i + 1 - start) =~= s@.subrange(start as int, i + 1));
        if !((c as u32) >= 48 && (c as u32) <= 57) {
            proof {
                lemma_fold_err(all, i + 1 - start, max as int);
            }
            return Err(IntError::InvalidDigit);
        }
        let next = acc * 10 + (c as u32 - 48);
        if next > max as u32 {
            proof {
                lemma_fold_err(all, i + 1 - start, max as int);
            }
            return Err(IntError::PosOverflow);
        }
        acc = next;
        i += 1;
    }
    assert(s@.subrange(start as int, s.len() as int) =~= digits);
    Ok(acc as u16)
}

/// The decimal digits of `n`, without leading zeros.
pub open spec fn decimal(n: nat) -> Seq<char>
    decreases n,
{
    if n < 10 {
        seq![digit_char(n)]
    } else {
        decimal(n / 10).push(digit_char(n % 10))
    }
}

/// Appends the decimal digits of `n` to `out`.
pub fn push_decimal(out: &mut Vec<char>, n: u32)
    ensures
        final(out)@ == old(out)@ + decimal(n as nat),
    decreases n,
{
    if n >= 10 {
        push_decimal(out, n / 10);
    }
    out.push(((n % 10) as u8 + 48) as char);
    proof {
        if n >= 10 {
            assert(decimal(n as nat) == decimal((n / 10) as nat).push(digit_char((n % 10) as nat)));
        }
    }
}

/// The value of a run of decimal digits.
pub open spec fn digits_number(s: Seq<char>) -> int
    decreases s.len(),
{
    if s.len() == 0 {
        0
    } else {
        digits_number(s.drop_last()) * 10 + digit_value(s.last())
    }
}

pub proof fn lemma_digit_char(d: nat)
    requires
        d < 10,
    ensures
        is_digit(digit_char(d)),
        digit_value(digit_char(d)) == d,
        !is_space(digit_char(d)),
        digit_char(d) != '+' && digit_char(d) != '-' && digit_char(d) != ',',
        digit_char(d) != ':' && digit_char(d) != '\n' && digit_char(d) != '\r',
{
}

/// The digits of `n` are decimal digits that spell `n`; their count grows
/// with `n`.
pub proof fn lemma_decimal(n: nat)
    ensures
        digits_number(decimal(n)) == n,
        forall|i: int| 0 <= i < decimal(n).len() ==> is_digit(#[trigger] decimal(n)[i]),
        1 <= decimal(n).len(),
        n < 10 ==> decimal(n).len() == 1,
        10 <= n < 100 ==> decimal(n).len() == 2,
        100 <= n < 1000 ==> decimal(n).len() == 3,
        1000 <= n < 10000 ==> decimal(n).len() == 4,
        n < 10000 ==> decimal(n).len() <= 4,
        n < 100 ==> decimal(n).len() <= 2,
    decreases n,
{
    lemma_digit_char(n % 10);
    if n < 10 {
        lemma_digit_char(n);
        assert(decimal(n).drop_last() =~= Seq::<char>::empty());
        assert(digits_number(Seq::<char>::empty()) == 0);
        assert(decimal(n).last() == digit_char(n));
    } else {
        lemma_decimal(n / 10);
        assert(decimal(n).drop_last() =~= decimal(n / 10));
        assert((n / 10) * 10 + n % 10 == n) by (nonlinear_arith);
        assert(decimal(n).last() == digit_char(n % 10));
        let d = decimal(n);
        assert forall|i: int| 0 <= i < d.len() implies is_digit(#[trigger] d[i]) by {
            if i < d.len() - 1 {
                assert(d[i] == decimal(n / 10)[i]);
            }
        }
    }
}

pub proof fn lemma_four_digits(s: Seq<char>)
    requires
        s.len() == 4,
    ensures
        digits_number(s) == digit_value(s[0]) * 1000 + digit_value(s[1]) * 100 + digit_value(
            s[2],
        ) * 10 + digit_value(s[3]),
{
    reveal_with_fuel(digits_number, 5);
    assert(s.drop_last().drop_last().drop_last().drop_last() =~= Seq::<char>::empty());
    assert(s.drop_last().drop_last().drop_last() =~= seq![s[0]]);
    assert(s.drop_last().drop_last() =~= seq![s[0], s[1]]);
    assert(s.drop_last() =~= seq![s[0], s[1], s[2]]);
}

/// Removes trailing white space.
pub fn trim_end_chars(s: &Vec<char>) -> (r: Vec<char>)
    ensures
        r@ == trim_end(s@),
{
    let mut hi: usize = s.len();
    assert(s@.take(hi as int) =~= s@);
    while hi > 0 && is_space_char(s[hi - 1])
        invariant
            hi <= s.len(),
            trim_end(s@.take(hi as int)) == trim_end(s@),
        decreases hi,
    {
        assert(s@.take(hi as int).drop_last() =~= s@.take(hi - 1));
        hi -= 1;
    }
    slice_of(s, 0, hi)
}

/// Index of the first blank line separator (two line breaks in a row) in
/// `s`, or the length of `s` where there is none.
pub open spec fn pair_index(s: Seq<char>) -> int
    decreases s.len(),
{
    if s.len() < 2 {
        s.len() as int
    } else if s[0] == '\n' && s[1] == '\n' {
        0
    } else {
        1 + pair_index(s.drop_first())
    }
}

pub open spec fn pair_at(s: Seq<char>, k: int) -> bool {
    k + 1 < s.len() && s[k] == '\n' && s[k + 1] == '\n'
}

pub proof fn lemma_pair_index(s: Seq<char>, i: int)
    requires
        0 <= i <= s.len(),
        forall|k: int| 0 <= k < i ==> !pair_at(s, k),
        pair_at(s, i) || i == s.len(),
    ensures
        pair_index(s) == i,
    decreases s.len(),
{
    if s.len() >= 2 && i > 0 {
        assert(!pair_at(s, 0));
        let t = s.drop_first();
        assert forall|k: int| 0 <= k < i - 1 implies !pair_at(t, k) by {
            assert(!pair_at(s, k + 1));
        }
        if i < s.len() {
            assert(pair_at(t, i - 1));
        }
        lemma_pair_index(t, i - 1);
    } else if s.len() < 2 && i < s.len() {
        assert(!pair_at(s, i));
    }
}

/// The pieces of `s` between blank line separators, taken left to right.
pub open spec fn split_blocks(s: Seq<char>) -> Seq<Seq<char>>
    decreases s.len(),
{
    let i = pair_index(s);
    if 0 <= i && i + 2 <= s.len() {
        seq![s.take(i)] + split_blocks(s.skip(i + 2))
    } else {
        seq![s]
    }
}

/// Position of the first blank line separator at or after `from`, or
/// `s.len()`.
fn find_pair(s: &Vec<char>, from: usize) -> (r: usize)
    requires
        from <= s.len(),
    ensures
        from <= r <= s.len(),
        r - from == pair_index(s@.skip(from as int)),
        r < s.len() ==> r + 1 < s.len() && s@[r as int] == '\n' && s@[r + 1] == '\n',
{
    let mut i = from;
    let ghost t = s@.skip(from as int);
    while i < s.len() && i + 1 < s.len() && !(s[i] == '\n' && s[i + 1] == '\n')
        invariant
            from <= i <= s.len(),
            t == s@.skip(from as int),
            forall|k: int| 0 <= k < i - from ==> !pair_at(t, k),
        decreases s.len() - i,
    {
        assert(!pair_at(t, i - from));
        i += 1;
    }
    if i >= s.len() || i + 1 >= s.len() {
        proof {
            assert forall|k: int| 0 <= k < s.len() - from implies !pair_at(t, k) by {
                if k >= i - from {
                    assert(k + 1 >= t.len());
                }
            }
            lemma_pair_index(t, s.len() - from);
        }
        return s.len();
    }
    proof {
        lemma_pair_index(t, i - from);
    }
    i
}

/// Splits `s` at every blank line separator.
pub fn split_blocks_of(s: &Vec<char>) -> (r: Vec<Vec<char>>)
    ensures
        views(r@) == split_blocks(s@),
{
    let mut r: Vec<Vec<char>> = Vec::new();
    let mut pos: usize = 0;
    assert(s@.skip(0) =~= s@);
    assert(views(r@) + split_blocks(s@) =~= split_blocks(s@));
    loop
        invariant
            pos <= s.len(),
            views(r@) + split_blocks(s@.skip(pos as int)) == split_blocks(s@),
        decreases s.len() - pos,
    {
        let j = find_pair(s, pos);
        let piece = slice_of(s, pos, j);
        let ghost rest = s@.skip(pos as int);
        let ghost before = views(r@);
        assert(piece@ =~= rest.take(j - pos));
        r.push(piece);
        assert(views(r@) =~= before.push(piece@));
        if j == s.len() {
            assert(rest =~= piece@);
            assert(views(r@) =~= before + split_blocks(rest));
            return r;
        }
        assert(rest.skip(j - pos + 2) =~= s@.skip(j + 2));
        assert(views(r@) + split_blocks(s@.skip(j + 2)) =~= before + split_blocks(rest));
        pos = j + 2;
    }
}

} // verus!
