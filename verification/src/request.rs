//! Route-search addresses and the reading of route-search answers.

use vstd::prelude::*;

use scraper::{Html, Selector};

use crate::config;
use crate::route::RouteOption;
use crate::system::pair::SystemPair;
use crate::text::{
    concat, parse_u64, parsed_u64, remove_char, split_from, split_on, trim, trimmed, without_char,
};
use crate::trace;

verus! {

/// The address of the route search between the two systems of a pair.
pub open spec fn route_url(option: RouteOption, pair: (Seq<char>, Seq<char>)) -> Seq<char> {
    config::ROUTE_SEARCH_URL_PREFIX@ + option.url_part() + pair.0 + ":"@ + pair.1
        + config::ROUTE_SEARCH_URL_POSTFIX@
}

proof fn lemma_split_without_sep(a: Seq<char>, sep: char, cur: Seq<char>)
    requires
        !a.contains(sep),
    ensures
        split_from(a, sep, cur) == seq![cur + a],
    decreases a.len(),
{
    if a.len() > 0 {
        assert(!a.drop_first().contains(sep)) by {
            if a.drop_first().contains(sep) {
                let i = a.drop_first().index_of(sep);
                assert(a[i + 1] == sep);
            }
        }
        assert(a[0] != sep);
        lemma_split_without_sep(a.drop_first(), sep, cur.push(a[0]));
        assert(cur.push(a[0]) + a.drop_first() =~= cur + a);
    } else {
        assert(cur + a =~= cur);
    }
}

proof fn lemma_split_at_sep(a: Seq<char>, b: Seq<char>, sep: char, cur: Seq<char>)
    requires
        !a.contains(sep),
    ensures
        split_from(a + seq![sep] + b, sep, cur) == seq![cur + a] + split_from(b, sep, Seq::empty()),
    decreases a.len(),
{
    let t = a + seq![sep] + b;
    if a.len() == 0 {
        assert(t[0] == sep);
        assert(t.drop_first() =~= b);
        assert(cur + a =~= cur);
    } else {
        assert(t[0] == a[0]);
        assert(a[0] != sep);
        assert(t.drop_first() =~= a.drop_first() + seq![sep] + b);
        assert(!a.drop_first().contains(sep)) by {
            if a.drop_first().contains(sep) {
                let i = a.drop_first().index_of(sep);
                assert(a[i + 1] == sep);
            }
        }
        lemma_split_at_sep(a.drop_first(), b, sep, cur.push(a[0]));
        assert(cur.push(a[0]) + a.drop_first() =~= cur + a);
    }
}

/// A route-search address gives back what it was made from: after the fixed
/// start and end, splitting it at `:` yields the option's number and the two
/// system names, when neither name holds a `:`.
pub proof fn lemma_url_round_trip(option: RouteOption, left: Seq<char>, right: Seq<char>)
    requires
        !left.contains(':'),
        !right.contains(':'),
    ensures
        ({
            let u = route_url(option, (left, right));
            let pre = config::ROUTE_SEARCH_URL_PREFIX@;
            let post = config::ROUTE_SEARCH_URL_POSTFIX@;
            &&& u.subrange(0, pre.len() as int) == pre
            &&& u.subrange(u.len() - post.len(), u.len() as int) == post
            &&& split_on(u.subrange(pre.len() as int, u.len() - post.len()), ':') == seq![
                option.url_part().drop_last(),
                left,
                right,
            ]
        }),
{
    reveal_strlit("1:");
    reveal_strlit("2:");
    reveal_strlit("3:");
    reveal_strlit(":");
    let pre = config::ROUTE_SEARCH_URL_PREFIX@;
    let post = config::ROUTE_SEARCH_URL_POSTFIX@;
    let digit = option.url_part().drop_last();
    assert(option.url_part() =~= digit + seq![':']);
    assert(!digit.contains(':')) by {
        if digit.contains(':') {
            let i = digit.index_of(':');
            assert(digit[i] == option.url_part()[i]);
        }
    }
    let mid = digit + seq![':'] + left + seq![':'] + right;
    let u = route_url(option, (left, right));
    assert(u =~= pre + mid + post);
    assert(u.subrange(0, pre.len() as int) =~= pre);
    assert(u.subrange(u.len() - post.len(), u.len() as int) =~= post);
    assert(u.subrange(pre.len() as int, u.len() - post.len()) =~= mid);
    lemma_split_at_sep(digit, left + seq![':'] + right, ':', Seq::empty());
    assert(mid =~= digit + seq![':'] + (left + seq![':'] + right));
    lemma_split_at_sep(left, right, ':', Seq::empty());
    lemma_split_without_sep(right, ':', Seq::empty());
    assert(Seq::<char>::empty() + digit =~= digit);
    assert(Seq::<char>::empty() + left =~= left);
    assert(Seq::<char>::empty() + right =~= right);
    assert(split_on(mid, ':') =~= seq![digit, left, right]);
}

/// The address of the route search between the two systems of `system_pair`.
pub fn make_url(route_option: &RouteOption, system_pair: &SystemPair) -> (url: String)
    ensures
        url@ == route_url(*route_option, system_pair@),
{
    let left = system_pair.left();
    let right = system_pair.right();
    let a = concat(config::ROUTE_SEARCH_URL_PREFIX, route_option.as_url());
    let b = concat(a.as_str(), left.as_str());
    let c = concat(b.as_str(), ":");
    let d = concat(c.as_str(), right.as_str());
    concat(d.as_str(), config::ROUTE_SEARCH_URL_POSTFIX)
}

/// Why a route-search answer gave no length.
#[derive(Debug, Clone, Copy, PartialEq, Eq, Structural)]
pub enum LengthError {
    /// The answer has no navigation element.
    UnexpectedResponseFormat,
    /// The navigation element has no route table, or the table no length cell.
    SystemNameInvalid,
    /// The length cell does not hold a number.
    InvalidRouteLength,
    /// The length cell holds zero, one less than which is no length.
    ZeroRouteLength,
}

impl LengthError {
    /// The text of the error, as an error line.
    pub fn message(&self) -> (s: String)
        ensures
            s@ == trace::base::labelled(trace::base::error_label(), 160, self.text()),
    {
        match self {
            LengthError::UnexpectedResponseFormat => trace::string::error(
                "Unexpected response format",
            ),
            LengthError::SystemNameInvalid => trace::string::error("System Name Invalid"),
            LengthError::InvalidRouteLength => trace::string::error("Failed to parse route length"),
            LengthError::ZeroRouteLength => trace::string::error("Route length is zero"),
        }
    }

    /// The description of the error.
    pub open spec fn text(self) -> Seq<char> {
        match self {
            LengthError::UnexpectedResponseFormat => "Unexpected response format"@,
            LengthError::SystemNameInvalid => "System Name Invalid"@,
            LengthError::InvalidRouteLength => "Failed to parse route length"@,
            LengthError::ZeroRouteLength => "Route length is zero"@,
        }
    }
}

/// What scraper finds in `document` for the selectors: whether a
/// `navigation` element exists (and every selector parses), and the inner
/// HTML of the first `cell` of the last `row` of the first `table` inside the
/// first such element, if there is one.
pub uninterp spec fn route_lookup(
    document: Seq<char>,
    navigation: Seq<char>,
    table: Seq<char>,
    row: Seq<char>,
    cell: Seq<char>,
) -> (bool, Option<Seq<char>>);

/// Parses `document` with scraper's `Html::parse_document` and the selectors
/// with `Selector::parse`, then follows `select(..).next()` for `navigation`
/// and `table`, `select(..).last()` for `row` and `select(..).next()` for
/// `cell`. It returns whether the navigation element was found (false also
/// when a selector does not parse) and the cell's `inner_html`. The contract
/// claims only that the result is a function of the arguments; the HTML parse
/// and the selector matching are not stated.
#[verifier::external_body]
fn select_route_cell(document: &str, navigation: &str, table: &str, row: &str, cell: &str) -> (r: (
    bool,
    Option<String>,
))
    ensures
        r.0 == route_lookup(document@, navigation@, table@, row@, cell@).0,
        r.1 matches Some(s) ==> route_lookup(document@, navigation@, table@, row@, cell@).1 == Some(
            s@,
        ),
        r.1 is None ==> route_lookup(document@, navigation@, table@, row@, cell@).1 is None,
{
    let html = Html::parse_document(document);
    let (Ok(s0), Ok(s1), Ok(s2), Ok(s3)) = (
        Selector::parse(navigation),
        Selector::parse(table),
        Selector::parse(row),
        Selector::parse(cell),
    ) else { return (false, None) };
    let Some(nav) = html.select(&s0).next() else { return (false, None) };
    let Some(tab) = nav.select(&s1).next() else { return (true, None) };
    let Some(last) = tab.select(&s2).last() else { return (true, None) };
    let Some(found) = last.select(&s3).next() else { return (true, None) };
    (true, Some(found.inner_html()))
}

/// The number of jumps that a route-length cell holds: its text without
/// thousands separators and surrounding white space, read as a number, less
/// one because the route counts its starting system.
pub open spec fn cell_length(cell: Seq<char>) -> Result<u64, LengthError> {
    match parsed_u64(trimmed(without_char(cell, '.'))) {
        None => Err(LengthError::InvalidRouteLength),
        Some(n) => if n == 0 {
            Err(LengthError::ZeroRouteLength)
        } else {
            Ok((n - 1) as u64)
        },
    }
}

/// The number of jumps that a route-length cell holds.
pub fn length_from_cell(cell: &str) -> (r: Result<u64, LengthError>)
    ensures
        r == cell_length(cell@),
{
    let digits = remove_char(cell, '.');
    match parse_u64(trim(digits.as_str())) {
        None => Err(LengthError::InvalidRouteLength),
        Some(n) => if n == 0 {
            Err(LengthError::ZeroRouteLength)
        } else {
            Ok(n - 1)
        },
    }
}

/// What scraper finds in a route-search answer for the route table.
pub open spec fn answer_lookup(text: Seq<char>) -> (bool, Option<Seq<char>>) {
    route_lookup(
        text,
        "div[id=\"navtools\"]"@,
        "table[class=\"tablelist table-tooltip\"]"@,
        "tr"@,
        "td"@,
    )
}

/// The number of jumps that a route-search answer reports, or why it
/// reports none.
pub open spec fn answer_length(text: Seq<char>) -> Result<u64, LengthError> {
    if !answer_lookup(text).0 {
        Err(LengthError::UnexpectedResponseFormat)
    } else {
        match answer_lookup(text).1 {
            None => Err(LengthError::SystemNameInvalid),
            Some(cell) => cell_length(cell),
        }
    }
}

/// The jump count of an answer is read from the route table inside the
/// navigation element (`div` with id `navtools`, then `table` with class
/// `tablelist table-tooltip`), from the first cell (`td`) of its last row,
/// every row (`tr`) counted: that cell's number less one; without the
/// navigation element the answer has an unexpected format, and without such
/// a table, row or cell the system name is invalid.
pub proof fn lemma_length_from_last_row(text: Seq<char>)
    ensures
        ({
            let found = route_lookup(
                text,
                "div[id=\"navtools\"]"@,
                "table[class=\"tablelist table-tooltip\"]"@,
                seq!['t', 'r'],
                seq!['t', 'd'],
            );
            &&& answer_lookup(text) == found
            &&& answer_length(text) == if !found.0 {
                Err(LengthError::UnexpectedResponseFormat)
            } else {
                match found.1 {
                    None => Err(LengthError::SystemNameInvalid),
                    Some(cell) => cell_length(cell),
                }
            }
        }),
{
    reveal_strlit("tr");
    reveal_strlit("td");
    assert("tr"@ =~= seq!['t', 'r']);
    assert("td"@ =~= seq!['t', 'd']);
}

fn lookup_length(text: &str) -> (r: Result<u64, LengthError>)
    ensures
        r == answer_length(text@),
{
    let (navigation, cell) = select_route_cell(
        text,
        "div[id=\"navtools\"]",
        "table[class=\"tablelist table-tooltip\"]",
        "tr",
        "td",
    );
    if !navigation {
        return Err(LengthError::UnexpectedResponseFormat);
    }
    match cell {
        None => Err(LengthError::SystemNameInvalid),
        Some(cell) => length_from_cell(cell.as_str()),
    }
}

/// The number of jumps that a route-search answer reports. The answer must
/// hold the route table with a length cell, and the cell a number above 0.
pub fn parse_text_into_length(text: &str) -> (r: u64)
    requires
        answer_length(text@) is Ok,
    ensures
        answer_length(text@) == Ok::<u64, LengthError>(r),
{
    match lookup_length(text) {
        Ok(n) => n,
        Err(_) => 0,
    }
}

/// The number of jumps that a route-search answer reports, or, for an answer
/// that `parse_text_into_length` does not take, why it reports none.
pub fn try_parse_text_into_length(text: &str) -> (r: Result<u64, LengthError>)
    ensures
        r == answer_length(text@),
{
    match lookup_length(text) {
        Ok(_) => Ok(parse_text_into_length(text)),
        Err(e) => Err(e),
    }
}

} // verus!
