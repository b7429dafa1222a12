//! The handle of an item: its name and, where given, its year, as a user
//! writes it (`Name (1999)` or `Name`).
use vstd::prelude::*;
use crate::text::{
    chars_of, decimal, digits_number, is_digit, lemma_decimal, lemma_four_digits, push_decimal,
    push_str, slice_of, string_of,
};

verus! {

/// The key of an item: its name and its year, where known.
#[derive(Debug)]
pub struct Handle {
    pub name: String,
    pub year: Option<u16>,
}

/// Whether `s` ends in a space, an opening parenthesis, four ASCII digits
/// and a closing parenthesis, after a non-empty name.
pub open spec fn has_year_suffix(s: Seq<char>) -> bool {
    let n = s.len();
    &&& n >= 8
    &&& s[n - 7] == ' '
    &&& s[n - 6] == '('
    &&& is_digit(s[n - 5]) && is_digit(s[n - 4]) && is_digit(s[n - 3]) && is_digit(s[n - 2])
    &&& s[n - 1] == ')'
}

/// The name and year that a user's text stands for.
pub open spec fn parse_handle(s: Seq<char>) -> (Seq<char>, Option<u16>) {
    if has_year_suffix(s) {
        (s.take(s.len() - 7), Some(digits_number(s.subrange(s.len() - 5, s.len() - 1)) as u16))
    } else {
        (s, None)
    }
}

/// The text of a handle: `Name (year)`, or the bare name without a year.
pub open spec fn handle_text(name: Seq<char>, year: Option<u16>) -> Seq<char> {
    match year {
        Some(y) => name + seq![' ', '('] + decimal(y as nat) + seq![')'],
        None => name,
    }
}

impl Handle {
    /// Reads `Name (1999)` as the name `Name` with the year 1999; any other
    /// text is a name without a year.
    pub fn from_user_input(input: &str) -> (r: Handle)
        ensures
            (r.name@, r.year) == parse_handle(input@),
    {
        let s = chars_of(input);
        let n = s.len();
        if n >= 8 && s[n - 7] == ' ' && s[n - 6] == '(' && s[n - 1] == ')' {
            let d0 = s[n - 5] as u32;
            let d1 = s[n - 4] as u32;
            let d2 = s[n - 3] as u32;
            let d3 = s[n - 2] as u32;
            if 48 <= d0 && d0 <= 57 && 48 <= d1 && d1 <= 57 && 48 <= d2 && d2 <= 57 && 48 <= d3
                && d3 <= 57 {
                let year = ((d0 - 48) * 1000 + (d1 - 48) * 100 + (d2 - 48) * 10 + (d3 - 48)) as u16;
                proof {
                    let digits = s@.subrange(n - 5, n - 1);
                    lemma_four_digits(digits);
                }
                let name = slice_of(&s, 0, n - 7);
                return Handle { name: string_of(name.as_slice()), year: Some(year) };
            }
        }
        Handle { name: string_of(s.as_slice()), year: None }
    }

    /// The text of this handle, `Name (year)` or `Name`.
    pub fn to_string(&self) -> (r: String)
        ensures
            r@ == handle_text(self.name@, self.year),
    {
        let mut out: Vec<char> = Vec::new();
        push_str(&mut out, self.name.as_str());
        match self.year {
            Some(y) => {
                out.push(' ');
                out.push('(');
                push_decimal(&mut out, y as u32);
                out.push(')');
            },
            None => {},
        }
        assert(out@ =~= handle_text(self.name@, self.year));
        string_of(out.as_slice())
    }
}

/// Reading the text of a handle gives the handle back, where the name does
/// not itself end like a year suffix and the year has four digits.
pub proof fn lemma_handle_round_trip(name: Seq<char>, year: Option<u16>)
    requires
        year is None ==> !has_year_suffix(name),
        year matches Some(y) ==> 1000 <= y <= 9999 && name.len() > 0,
    ensures
        parse_handle(handle_text(name, year)) == (name, year),
{
    if let Some(y) = year {
        let t = handle_text(name, year);
        lemma_decimal(y as nat);
        let d = decimal(y as nat);
        let n = t.len();
        assert(n == name.len() + 7);
        assert(t[n - 7] == ' ' && t[n - 6] == '(' && t[n - 1] == ')');
        assert(t[n - 5] == d[0] && t[n - 4] == d[1] && t[n - 3] == d[2] && t[n - 2] == d[3]);
        assert(t.subrange(n - 5, n - 1) =~= d);
        assert(t.take(n - 7) =~= name);
    }
}

} // verus!
