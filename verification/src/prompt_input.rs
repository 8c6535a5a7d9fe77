//! Prompts given directly as token ids: a comma-separated list of decimal
//! numbers.

use vstd::prelude::*;
use crate::error::MiniInferError;
use crate::text::{chars_of, trim, trim_ws};

verus! {

/// Left-to-right scan that cuts `s` at every `sep`: the finished pieces and
/// the piece still being read.
pub open spec fn split_scan(s: Seq<char>, sep: char) -> (Seq<Seq<char>>, Seq<char>)
    decreases s.len(),
{
    if s.len() == 0 {
        (seq![], seq![])
    } else {
        let (pieces, cur) = split_scan(s.drop_last(), sep);
        if s.last() == sep {
            (pieces.push(cur), seq![])
        } else {
            (pieces, cur.push(s.last()))
        }
    }
}

/// The pieces of `s` between occurrences of `sep`, as `str::split` yields
/// them: one more piece than there are separators, empty pieces included.
pub open spec fn split_on(s: Seq<char>, sep: char) -> Seq<Seq<char>> {
    let (pieces, cur) = split_scan(s, sep);
    pieces.push(cur)
}

pub open spec fn is_ascii_digit(c: char) -> bool {
    '0' <= c <= '9'
}

/// The number that a string of decimal digits denotes.
pub open spec fn digits_value(ds: Seq<char>) -> nat
    decreases ds.len(),
{
    if ds.len() == 0 {
        0
    } else {
        digits_value(ds.drop_last()) * 10 + ((ds.last() as u32) - 48) as nat
    }
}

/// The digits of a number as `str::parse` reads them: after one optional
/// leading `+`.
pub open spec fn unsigned_digits(s: Seq<char>) -> Seq<char> {
    if s.len() > 0 && s[0] == '+' {
        s.drop_first()
    } else {
        s
    }
}

/// What `str::parse::<usize>` gives: the value of an optional `+` followed
/// by at least one ASCII digit, when that value fits in `usize`.
pub open spec fn parse_usize(s: Seq<char>) -> Option<usize> {
    let ds = unsigned_digits(s);
    if ds.len() > 0 && (forall|i: int| 0 <= i < ds.len() ==> is_ascii_digit(#[trigger] ds[i]))
        && digits_value(ds) <= usize::MAX {
        Some(digits_value(ds) as usize)
    } else {
        None
    }
}

/// The ids that a comma-separated list denotes, when every item, white space
/// trimmed, is a number.
pub open spec fn token_list(s: Seq<char>) -> Option<Seq<usize>> {
    let items = split_on(s, ',');
    if forall|i: int| 0 <= i < items.len() ==> #[trigger] parse_usize(trim_ws(items[i])) is Some {
        Some(Seq::new(items.len(), |i: int| parse_usize(trim_ws(items[i]))->0))
    } else {
        None
    }
}

proof fn lemma_digits_value_prefix(ds: Seq<char>, i: int)
    requires
        0 <= i <= ds.len(),
    ensures
        digits_value(ds.take(i)) <= digits_value(ds),
    decreases ds.len() - i,
{
    if i < ds.len() {
        lemma_digits_value_prefix(ds, i + 1);
        assert(ds.take(i + 1).drop_last() =~= ds.take(i));
    } else {
        assert(ds.take(i) =~= ds);
    }
}

/// Reads a number the way `str::parse::<usize>` does.
fn parse_usize_chars(s: &[char]) -> (r: Option<usize>)
    ensures
        r == parse_usize(s@),
{
    let mut start: usize = 0;
    if s.len() > 0 && s[0] == '+' {
        start = 1;
    }
    let ghost ds = unsigned_digits(s@);
    assert(ds =~= s@.skip(start as int));
    if start >= s.len() {
        return None;
    }
    let mut value: usize = 0;
    let mut i: usize = start;
    while i < s.len()
        invariant
            start <= i <= s@.len(),
            start < s@.len(),
            ds == s@.skip(start as int),
            ds == unsigned_digits(s@),
            forall|j: int| 0 <= j < i - start ==> is_ascii_digit(#[trigger] ds[j]),
            value == digits_value(ds.take(i - start)),
        decreases s.len() - i,
    {
        let c = s[i];
        if !('0' <= c && c <= '9') {
            assert(!is_ascii_digit(ds[i - start]));
            assert(!(forall|j: int| 0 <= j < ds.len() ==> is_ascii_digit(#[trigger] ds[j])));
            return None;
        }
        let d = (c as u32 - 48) as usize;
        let ghost k = (i - start) as int;
        assert(ds.take(k + 1).drop_last() =~= ds.take(k));
        assert(ds.take(k + 1).last() == c);
        let next = match value.checked_mul(10) {
            Some(v) => v.checked_add(d),
            None => None,
        };
        match next {
            Some(v) => {
                value = v;
            },
            None => {
                proof {
                    lemma_digits_value_prefix(ds, k + 1);
                    assert(digits_value(ds.take(k + 1)) == value * 10 + d);
                    assert(digits_value(ds) > usize::MAX);
                }
                return None;
            },
        }
        i = i + 1;
    }
    assert(ds.take(ds.len() as int) =~= ds);
    Some(value)
}

/// Cuts `s` at every `sep`.
fn split_on_char(s: &[char], sep: char) -> (pieces: Vec<Vec<char>>)
    ensures
        pieces@.map_values(|w: Vec<char>| w@) == split_on(s@, sep),
{
    let mut pieces: Vec<Vec<char>> = Vec::new();
    let mut cur: Vec<char> = Vec::new();
    let mut i: usize = 0;
    while i < s.len()
        invariant
            i <= s.len(),
            (pieces@.map_values(|w: Vec<char>| w@), cur@) == split_scan(s@.take(i as int), sep),
        decreases s.len() - i,
    {
        let c = s[i];
        proof {
            assert(s@.take(i + 1).drop_last() =~= s@.take(i as int));
        }
        if c == sep {
            let ghost before = pieces@.map_values(|w: Vec<char>| w@);
            let done = cur;
            pieces.push(done);
            cur = Vec::new();
            assert(pieces@.map_values(|w: Vec<char>| w@) =~= before.push(done@));
        } else {
            cur.push(c);
        }
        i = i + 1;
        assert(cur@ =~= split_scan(s@.take(i as int), sep).1);
    }
    assert(s@.take(s.len() as int) =~= s@);
    let ghost before = pieces@.map_values(|w: Vec<char>| w@);
    let last = cur;
    pieces.push(last);
    assert(pieces@.map_values(|w: Vec<char>| w@) =~= before.push(last@));
    pieces
}

/// Reads a comma-separated list of token ids; white space around an id is
/// ignored, and any item that is not a number makes the whole list invalid.
pub fn parse_token_ids(tokens: &str) -> (r: Result<Vec<usize>, MiniInferError>)
    ensures
        token_list(tokens@) matches Some(ids) ==> (r matches Ok(v) && v@ == ids),
        token_list(tokens@) is None ==> r == Err::<Vec<usize>, MiniInferError>(MiniInferError::InvalidInput),
{
    let chars = chars_of(tokens);
    let pieces = split_on_char(chars.as_slice(), ',');
    let ghost items = split_on(tokens@, ',');
    assert(pieces@.len() == items.len());
    let mut ids: Vec<usize> = Vec::new();
    let mut i: usize = 0;
    while i < pieces.len()
        invariant
            chars@ == tokens@,
            items == split_on(tokens@, ','),
            pieces@.map_values(|w: Vec<char>| w@) == items,
            i <= pieces@.len(),
            ids@.len() == i,
            forall|j: int|
                0 <= j < i ==> #[trigger] parse_usize(trim_ws(items[j])) == Some(ids@[j]),
        decreases pieces.len() - i,
    {
        assert(pieces@[i as int]@ == items[i as int]);
        let item = trim(pieces[i].as_slice());
        match parse_usize_chars(item.as_slice()) {
            Some(id) => {
                ids.push(id);
            },
            None => {
                assert(parse_usize(trim_ws(items[i as int])) is None);
                return Err(MiniInferError::InvalidInput);
            },
        }
        i = i + 1;
    }
    proof {
        let expected = Seq::new(items.len(), |j: int| parse_usize(trim_ws(items[j]))->0);
        assert forall|j: int| 0 <= j < items.len() implies #[trigger] parse_usize(trim_ws(items[j])) is Some by {
            assert(parse_usize(trim_ws(items[j])) == Some(ids@[j]));
        }
        assert(ids@ =~= expected);
    }
    Ok(ids)
}

} // verus!
