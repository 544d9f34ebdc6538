//! Parsing of request lines and query strings, and framing of responses.

use vstd::prelude::*;
use vstd::string::*;

use crate::path::{split_chars, split_on, texts_view};
use crate::route::bindings_view;
use crate::server::{IRequest, IResponse, Request, RequestView};
use vstd::utf8::encode_utf8;

verus! {

/// Why a request line could not be parsed.
#[derive(PartialEq, Eq, Structural, Debug, Clone, Copy)]
pub enum ParseError {
    /// The line is not three fields separated by single spaces.
    MalformedRequestLine,
    /// A query entry is not exactly one `key=value` pair.
    MalformedQuery,
}

/// `s` cut at its first `c`: the text before it and the text after it, or
/// `None` where `s` holds no `c`.
pub open spec fn split_first(s: Seq<char>, c: char) -> Option<(Seq<char>, Seq<char>)>
    decreases s.len(),
{
    if s.len() == 0 {
        None
    } else if s[0] == c {
        Some((Seq::empty(), s.drop_first()))
    } else {
        match split_first(s.drop_first(), c) {
            Some((a, b)) => Some((seq![s[0]] + a, b)),
            None => None,
        }
    }
}

proof fn lemma_split_first_at(s: Seq<char>, c: char, i: int)
    requires
        0 <= i < s.len(),
        s[i] == c,
        forall|j: int| 0 <= j < i ==> s[j] != c,
    ensures
        split_first(s, c) == Some((s.take(i), s.skip(i + 1))),
    decreases i,
{
    if i > 0 {
        lemma_split_first_at(s.drop_first(), c, i - 1);
        assert(seq![s[0]] + s.drop_first().take(i - 1) =~= s.take(i));
        assert(s.drop_first().skip(i) =~= s.skip(i + 1));
    } else {
        assert(s.take(0) =~= Seq::<char>::empty());
        assert(s.skip(1) =~= s.drop_first());
    }
}

proof fn lemma_split_first_none(s: Seq<char>, c: char)
    requires
        forall|j: int| 0 <= j < s.len() ==> s[j] != c,
    ensures
        split_first(s, c) is None,
    decreases s.len(),
{
    if s.len() > 0 {
        lemma_split_first_none(s.drop_first(), c);
    }
}

/// Cuts `s` at its first `c`, as [`split_first`] says.
pub fn split_once_char(s: &str, c: char) -> (r: Option<(String, String)>)
    ensures
        match split_first(s@, c) {
            Some((a, b)) => r matches Some((ra, rb)) && ra@ == a && rb@ == b,
            None => r is None,
        },
{
    let n = s.unicode_len();
    let mut i: usize = 0;
    while i < n
        invariant
            n == s@.len(),
            i <= n,
            forall|j: int| 0 <= j < i ==> s@[j] != c,
        decreases n - i,
    {
        if s.get_char(i) == c {
            proof {
                lemma_split_first_at(s@, c, i as int);
            }
            let before = s.substring_char(0, i).to_owned();
            let after = s.substring_char(i + 1, n).to_owned();
            return Some((before, after));
        }
        i = i + 1;
    }
    proof {
        lemma_split_first_none(s@, c);
    }
    None
}

/// The key and value of a query entry `key=value`, or `None` where the entry
/// does not hold exactly one `=`.
pub open spec fn query_entry(e: Seq<char>) -> Option<(Seq<char>, Seq<char>)> {
    let parts = split_on(e, '=');
    if parts.len() == 2 {
        Some((parts[0], parts[1]))
    } else {
        None
    }
}

/// The pairs of a query string: its `&`-separated entries, each one
/// `key=value` pair, in order; `None` where some entry is not.
pub open spec fn query_spec(q: Seq<char>) -> Option<Seq<(Seq<char>, Seq<char>)>> {
    let entries = split_on(q, '&');
    if forall|i: int| 0 <= i < entries.len() ==> #[trigger] query_entry(entries[i]) is Some {
        Some(entries.map_values(|e: Seq<char>| query_entry(e)->Some_0))
    } else {
        None
    }
}

/// Parses a query string into its key-value pairs, as [`query_spec`] says;
/// keys may repeat, and order is kept.
pub fn parse_query_parameters(input: &str) -> (r: Result<Vec<(String, String)>, ParseError>)
    ensures
        match query_spec(input@) {
            Some(pairs) => r matches Ok(v) && bindings_view(v@) == pairs,
            None => r == Err::<Vec<(String, String)>, ParseError>(ParseError::MalformedQuery),
        },
{
    let entries = split_chars(input, '&');
    let ghost es = split_on(input@, '&');
    let mut pairs: Vec<(String, String)> = Vec::new();
    let mut i: usize = 0;
    while i < entries.len()
        invariant
            texts_view(entries@) == es,
            es == split_on(input@, '&'),
            i <= entries.len(),
            forall|k: int| 0 <= k < i ==> #[trigger] query_entry(es[k]) is Some,
            bindings_view(pairs@) =~= es.take(i as int).map_values(
                |e: Seq<char>| query_entry(e)->Some_0,
            ),
        decreases entries.len() - i,
    {
        let parts = split_chars(entries[i].as_str(), '=');
        assert(es[i as int] == entries@[i as int]@);
        if parts.len() != 2 {
            assert(query_entry(es[i as int]) is None);
            return Err(ParseError::MalformedQuery);
        }
        let ghost before = bindings_view(pairs@);
        let key = parts[0].clone();
        let value = parts[1].clone();
        pairs.push((key, value));
        assert(bindings_view(pairs@) =~= before.push(query_entry(es[i as int])->Some_0));
        assert(es.take(i + 1).map_values(|e: Seq<char>| query_entry(e)->Some_0)
            =~= es.take(i as int).map_values(|e: Seq<char>| query_entry(e)->Some_0).push(
            query_entry(es[i as int])->Some_0,
        ));
        i = i + 1;
    }
    assert(es.take(i as int) == es);
    Ok(pairs)
}

/// What a request line `METHOD SP TARGET SP VERSION` gives: the method, the
/// path (the target up to its first `?`), and the pairs of the query string
/// after that `?`, with an empty body and no path parameters.
pub open spec fn parse_request_spec(line: Seq<char>) -> Result<RequestView, ParseError> {
    let parts = split_on(line, ' ');
    if parts.len() != 3 {
        Err(ParseError::MalformedRequestLine)
    } else {
        match split_first(parts[1], '?') {
            None => Ok(
                RequestView {
                    method: parts[0],
                    path: parts[1],
                    query: Seq::empty(),
                    body: Seq::empty(),
                    params: Seq::empty(),
                },
            ),
            Some((path, q)) => match query_spec(q) {
                None => Err(ParseError::MalformedQuery),
                Some(pairs) => Ok(
                    RequestView {
                        method: parts[0],
                        path,
                        query: pairs,
                        body: Seq::empty(),
                        params: Seq::empty(),
                    },
                ),
            },
        }
    }
}

/// Parses a request line, as [`parse_request_spec`] says.
pub fn parse_request(input: &String) -> (r: Result<Request, ParseError>)
    ensures
        match parse_request_spec(input@) {
            Ok(v) => r matches Ok(req) && req.request_view() == v,
            Err(e) => r matches Err(x) && x == e,
        },
{
    let parts = split_chars(input.as_str(), ' ');
    if parts.len() != 3 {
        return Err(ParseError::MalformedRequestLine);
    }
    assert(parts@[0]@ == split_on(input@, ' ')[0]);
    assert(parts@[1]@ == split_on(input@, ' ')[1]);
    let method = parts[0].clone();
    match split_once_char(parts[1].as_str(), '?') {
        None => {
            let query: Vec<(String, String)> = Vec::new();
            assert(bindings_view(query@) =~= Seq::empty());
            Ok(Request::new(method, parts[1].clone(), query, String::new()))
        },
        Some((path, q)) => match parse_query_parameters(q.as_str()) {
            Ok(query) => Ok(Request::new(method, path, query, String::new())),
            Err(e) => Err(e),
        },
    }
}

/// Optional whitespace around a header's name and value: space, tab, CR, LF.
pub open spec fn is_ows(c: char) -> bool {
    c == ' ' || c == '\t' || c == '\r' || c == '\n'
}

/// `s` without its leading whitespace.
pub open spec fn trim_start(s: Seq<char>) -> Seq<char>
    decreases s.len(),
{
    if s.len() > 0 && is_ows(s[0]) {
        trim_start(s.drop_first())
    } else {
        s
    }
}

/// `s` without its trailing whitespace.
pub open spec fn trim_end(s: Seq<char>) -> Seq<char>
    decreases s.len(),
{
    if s.len() > 0 && is_ows(s.last()) {
        trim_end(s.drop_last())
    } else {
        s
    }
}

/// `s` without whitespace at either end.
pub open spec fn trim_ows(s: Seq<char>) -> Seq<char> {
    trim_end(trim_start(s))
}

proof fn lemma_trim_start(s: Seq<char>, i: int)
    requires
        0 <= i <= s.len(),
        forall|j: int| 0 <= j < i ==> is_ows(s[j]),
        i == s.len() || !is_ows(s[i]),
    ensures
        trim_start(s) == s.skip(i),
    decreases i,
{
    if i > 0 {
        lemma_trim_start(s.drop_first(), i - 1);
        assert(s.drop_first().skip(i - 1) =~= s.skip(i));
    } else {
        assert(s.skip(0) =~= s);
    }
}

proof fn lemma_trim_end(s: Seq<char>, e: int)
    requires
        0 <= e <= s.len(),
        forall|j: int| e <= j < s.len() ==> is_ows(s[j]),
        e == 0 || !is_ows(s[e - 1]),
    ensures
        trim_end(s) == s.take(e),
    decreases s.len() - e,
{
    if e < s.len() {
        lemma_trim_end(s.drop_last(), e);
        assert(s.drop_last().take(e) =~= s.take(e));
    } else {
        assert(s.take(e) =~= s);
    }
}

fn is_ows_char(c: char) -> (r: bool)
    ensures
        r == is_ows(c),
{
    c == ' ' || c == '\t' || c == '\r' || c == '\n'
}

/// Trims whitespace from both ends of `s`, as [`trim_ows`] says.
pub fn trim_text(s: &str) -> (r: String)
    ensures
        r@ == trim_ows(s@),
{
    let n = s.unicode_len();
    let mut i: usize = 0;
    while i < n && is_ows_char(s.get_char(i))
        invariant
            n == s@.len(),
            i <= n,
            forall|j: int| 0 <= j < i ==> is_ows(s@[j]),
        decreases n - i,
    {
        i = i + 1;
    }
    proof {
        lemma_trim_start(s@, i as int);
    }
    let ghost t = s@.skip(i as int);
    let mut e: usize = n;
    while e > i && is_ows_char(s.get_char(e - 1))
        invariant
            n == s@.len(),
            i <= e <= n,
            t == s@.skip(i as int),
            forall|j: int| e <= j < n ==> is_ows(s@[j]),
        decreases e,
    {
        e = e - 1;
    }
    proof {
        assert forall|j: int| e - i <= j < t.len() implies is_ows(t[j]) by {
            assert(t[j] == s@[j + i]);
        }
        if e > i {
            assert(t[e - i - 1] == s@[e - 1]);
        }
        lemma_trim_end(t, e - i);
        assert(t.take(e - i) =~= s@.subrange(i as int, e as int));
    }
    s.substring_char(i, e).to_owned()
}

/// A header line `name: value`, cut at its first `:`, each side trimmed of
/// whitespace; `None` where the line holds no `:`.
pub open spec fn header_spec(line: Seq<char>) -> Option<(Seq<char>, Seq<char>)> {
    match split_first(line, ':') {
        Some((name, value)) => Some((trim_ows(name), trim_ows(value))),
        None => None,
    }
}

/// Parses a header line, as [`header_spec`] says.
pub fn parse_header_line(line: &str) -> (r: Option<(String, String)>)
    ensures
        match header_spec(line@) {
            Some((name, value)) => r matches Some((n, v)) && n@ == name && v@ == value,
            None => r is None,
        },
{
    match split_once_char(line, ':') {
        Some((name, value)) => Some((trim_text(name.as_str()), trim_text(value.as_str()))),
        None => None,
    }
}

/// `c` with ASCII upper case letters taken to lower case, as a code point.
pub open spec fn fold_case(c: char) -> u32 {
    if 'A' <= c <= 'Z' {
        (c as u32 + 32) as u32
    } else {
        c as u32
    }
}

/// The two texts are equal but for the case of ASCII letters.
pub open spec fn eq_ignore_ascii_case(a: Seq<char>, b: Seq<char>) -> bool {
    a.len() == b.len() && forall|i: int| 0 <= i < a.len() ==> fold_case(a[i]) == fold_case(b[i])
}

/// Compares two texts but for the case of ASCII letters.
pub fn same_text_ignoring_case(a: &str, b: &str) -> (r: bool)
    ensures
        r == eq_ignore_ascii_case(a@, b@),
{
    let n = a.unicode_len();
    if n != b.unicode_len() {
        return false;
    }
    let mut i: usize = 0;
    while i < n
        invariant
            n == a@.len() == b@.len(),
            i <= n,
            forall|j: int| 0 <= j < i ==> fold_case(a@[j]) == fold_case(b@[j]),
        decreases n - i,
    {
        let x = a.get_char(i);
        let y = b.get_char(i);
        let fx: u32 = if 'A' <= x && x <= 'Z' {
            x as u32 + 32
        } else {
            x as u32
        };
        let fy: u32 = if 'A' <= y && y <= 'Z' {
            y as u32 + 32
        } else {
            y as u32
        };
        if fx != fy {
            return false;
        }
        i = i + 1;
    }
    true
}

/// The value of a decimal numeral of one or more digits; `None` where `s`
/// is empty or holds anything but digits.
pub open spec fn decimal_value(s: Seq<char>) -> Option<nat>
    decreases s.len(),
{
    if s.len() == 0 || !('0' <= s.last() <= '9') {
        None
    } else if s.len() == 1 {
        Some((s.last() as u32 - '0' as u32) as nat)
    } else {
        match decimal_value(s.drop_last()) {
            Some(v) => Some(v * 10 + (s.last() as u32 - '0' as u32) as nat),
            None => None,
        }
    }
}

/// Reads a decimal numeral, as [`decimal_value`] says; `None` also where the
/// value does not fit in a `usize`.
pub fn parse_decimal(s: &str) -> (r: Option<usize>)
    ensures
        match decimal_value(s@) {
            Some(v) => if v <= usize::MAX {
                r == Some(v as usize)
            } else {
                r is None
            },
            None => r is None,
        },
{
    let n = s.unicode_len();
    if n == 0 {
        return None;
    }
    let mut value: usize = 0;
    let mut i: usize = 0;
    while i < n
        invariant
            n == s@.len(),
            0 < n,
            i <= n,
            i > 0 ==> decimal_value(s@.take(i as int)) == Some(value as nat),
            i == 0 ==> value == 0,
        decreases n - i,
    {
        let c = s.get_char(i);
        let ghost prefix = s@.take(i + 1);
        assert(prefix.drop_last() == s@.take(i as int));
        assert(prefix.last() == c);
        if !('0' <= c && c <= '9') {
            proof {
                lemma_decimal_prefix(s@, i + 1);
            }
            return None;
        }
        let d: usize = (c as u32 - '0' as u32) as usize;
        if value > (usize::MAX - d) / 10 {
            proof {
                lemma_decimal_grows(s@, i + 1);
            }
            return None;
        }
        value = value * 10 + d;
        i = i + 1;
    }
    assert(s@.take(n as int) == s@);
    Some(value)
}

proof fn lemma_decimal_prefix(s: Seq<char>, k: int)
    requires
        0 < k <= s.len(),
        decimal_value(s.take(k)) is None,
    ensures
        decimal_value(s) is None,
    decreases s.len() - k,
{
    if k < s.len() {
        assert(s.take(k + 1).drop_last() == s.take(k));
        lemma_decimal_prefix(s, k + 1);
    } else {
        assert(s.take(k) == s);
    }
}

proof fn lemma_decimal_grows(s: Seq<char>, k: int)
    requires
        0 < k <= s.len(),
        decimal_value(s.take(k)) is None || decimal_value(s.take(k))->Some_0 > usize::MAX,
    ensures
        decimal_value(s) is None || decimal_value(s)->Some_0 > usize::MAX,
    decreases s.len() - k,
{
    if k < s.len() {
        assert(s.take(k + 1).drop_last() == s.take(k));
        lemma_decimal_grows(s, k + 1);
    } else {
        assert(s.take(k) == s);
    }
}

/// The body length that the headers give: the value of the last
/// `Content-Length` header (its name compared without regard to ASCII case),
/// or 0 where there is none or its value is not a decimal numeral that fits
/// in a `usize`.
pub open spec fn content_length_spec(headers: Seq<(Seq<char>, Seq<char>)>) -> nat
    decreases headers.len(),
{
    if headers.len() == 0 {
        0
    } else if eq_ignore_ascii_case(headers.last().0, "content-length"@) {
        match decimal_value(headers.last().1) {
            Some(v) => if v <= usize::MAX {
                v
            } else {
                0
            },
            None => 0,
        }
    } else {
        content_length_spec(headers.drop_last())
    }
}

/// The body length that the headers give, as [`content_length_spec`] says.
pub fn content_length(headers: &Vec<(String, String)>) -> (r: usize)
    ensures
        r == content_length_spec(bindings_view(headers@)),
{
    let mut k: usize = headers.len();
    let ghost hs = bindings_view(headers@);
    while k > 0
        invariant
            k <= headers@.len(),
            hs == bindings_view(headers@),
            forall|j: int|
                k <= j < headers@.len() ==> !eq_ignore_ascii_case(
                    #[trigger] hs[j].0,
                    "content-length"@,
                ),
        decreases k,
    {
        let (name, value) = &headers[k - 1];
        if same_text_ignoring_case(name.as_str(), "content-length") {
            proof {
                lemma_last_content_length(hs, k as int);
                assert(hs.take(k as int).last() == hs[k - 1]);
                assert(hs.take(k as int).len() > 0);
            }
            return match parse_decimal(value.as_str()) {
                Some(v) => v,
                None => 0,
            };
        }
        k = k - 1;
    }
    proof {
        lemma_last_content_length(hs, 0);
        assert(hs.take(0).len() == 0);
    }
    0
}

/// Only the last `Content-Length` header counts: the headers after position
/// `k` hold none.
proof fn lemma_last_content_length(hs: Seq<(Seq<char>, Seq<char>)>, k: int)
    requires
        0 <= k <= hs.len(),
        forall|j: int| k <= j < hs.len() ==> !eq_ignore_ascii_case(#[trigger] hs[j].0, "content-length"@),
    ensures
        content_length_spec(hs) == content_length_spec(hs.take(k)),
    decreases hs.len() - k,
{
    if k < hs.len() {
        assert(hs.drop_last().take(k) == hs.take(k));
        assert(hs.last() == hs[hs.len() - 1]);
        lemma_last_content_length(hs.drop_last(), k);
    } else {
        assert(hs.take(k) == hs);
    }
}

/// The decimal digit `d`.
pub open spec fn digit_char(d: nat) -> char {
    seq!['0', '1', '2', '3', '4', '5', '6', '7', '8', '9'][d as int]
}

/// The decimal numeral of `n`, without leading zeros.
pub open spec fn decimal(n: nat) -> Seq<char>
    decreases n,
{
    if n < 10 {
        seq![digit_char(n)]
    } else {
        decimal(n / 10).push(digit_char(n % 10))
    }
}

fn digit_text(d: usize) -> (r: &'static str)
    requires
        d < 10,
    ensures
        r@ == seq![digit_char(d as nat)],
{
    proof {
        reveal_strlit("0");
        reveal_strlit("1");
        reveal_strlit("2");
        reveal_strlit("3");
        reveal_strlit("4");
        reveal_strlit("5");
        reveal_strlit("6");
        reveal_strlit("7");
        reveal_strlit("8");
        reveal_strlit("9");
    }
    let r = match d {
        0 => "0",
        1 => "1",
        2 => "2",
        3 => "3",
        4 => "4",
        5 => "5",
        6 => "6",
        7 => "7",
        8 => "8",
        _ => "9",
    };
    assert(r@ =~= seq![digit_char(d as nat)]);
    r
}

/// The decimal numeral of `n`.
pub fn decimal_text(n: usize) -> (r: String)
    ensures
        r@ == decimal(n as nat),
    decreases n,
{
    if n < 10 {
        String::from_str(digit_text(n))
    } else {
        decimal_text(n / 10).concat(digit_text(n % 10))
    }
}

/// The bytes on the wire for a response: its status line, a `Content-Length`
/// header giving the body's length in bytes, an empty line, and the body.
pub open spec fn wire_format(status: Seq<char>, body: Seq<char>) -> Seq<char> {
    status + "\r\nContent-Length: "@ + decimal((encode_utf8(body).len() as usize) as nat) + "\r\n\r\n"@
        + body
}

/// Frames a response for the wire, as [`wire_format`] says.
pub fn serialize_response<R: IResponse>(response: &R) -> (r: String)
    ensures
        r@ == wire_format(response.status_view(), response.body_view()),
{
    let length = decimal_text(response.len());
    String::from_str(response.status()).concat("\r\nContent-Length: ").concat(
        length.as_str(),
    ).concat("\r\n\r\n").concat(response.body())
}

} // verus!
