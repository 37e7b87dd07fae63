//! Pagination links in a `Link` response header (W3C 9707 style), such as
//! `<https://host/api?page=2>; rel="next", <https://host/api?page=1>; rel="prev"`.
//!
//! The header is split at every `,`. Each piece is trimmed and split at its first
//! `;`; the part before it is the URL wrapped in one character on each side
//! (`<`, `>`), the part after it is trimmed at the start and split at its first
//! `=`; what follows is the relevance wrapped in one character on each side
//! (`"`). A later link with the same relevance replaces an earlier one.
use crate::text::{
    chars_of, find_char, find_in, lemma_find_char_bounds, range_equals, skip_whitespace,
    skip_whitespace_back, split_char, trim, trim_start,
};
use crate::headers::{
    ascii_chars, link_header, link_text, link_unreadable, link_value, read_link_header, str_from_utf8,
    value_as_bytes, value_text, visible_ascii,
};
use hyper::header::HeaderMap;
use vstd::prelude::*;
use vstd::utf8::decode_utf8;

verus! {

/// What becomes of one comma-separated piece of a `Link` header.
pub enum LinkOutcome {
    /// The piece cannot be cut as the format asks: the URL or the relevance is
    /// shorter than two characters or is not wrapped in single-byte characters.
    Unsliceable,
    /// The piece is malformed; `src` is what the error reports.
    Fault { src: Seq<char>, missing_relevance: bool },
    /// A link with its URL and relevance.
    Link { url: Seq<char>, rel: Seq<char> },
}

/// Whether a wrapped field can be unwrapped: at least two characters, the
/// first and the last each one byte long in UTF-8.
pub open spec fn unwrappable(s: Seq<char>) -> bool {
    &&& s.len() >= 2
    &&& (s[0] as u32) < 0x80
    &&& (s[s.len() - 1] as u32) < 0x80
}

/// A wrapped field without its first and last character.
pub open spec fn unwrap_field(s: Seq<char>) -> Seq<char> {
    s.subrange(1, s.len() - 1)
}

/// The outcome of one piece of a `Link` header.
pub open spec fn link_outcome(link: Seq<char>) -> LinkOutcome {
    let t = trim(link);
    match find_char(t, ';') {
        None => LinkOutcome::Fault { src: link, missing_relevance: false },
        Some(i) => {
            let url_part = t.take(i);
            if !unwrappable(url_part) {
                LinkOutcome::Unsliceable
            } else {
                let r = trim_start(t.skip(i + 1));
                match find_char(r, '=') {
                    None => LinkOutcome::Fault { src: r, missing_relevance: true },
                    Some(j) => {
                        let v = r.skip(j + 1);
                        if !unwrappable(v) {
                            LinkOutcome::Unsliceable
                        } else {
                            LinkOutcome::Link { url: unwrap_field(url_part), rel: unwrap_field(v) }
                        }
                    },
                }
            }
        },
    }
}

/// The comma-separated pieces of a `Link` header.
pub open spec fn link_pieces(header: Seq<char>) -> Seq<Seq<char>> {
    split_char(header, ',')
}

/// The outcome of the first piece that is not a well-formed link, if any.
pub open spec fn first_failure(pieces: Seq<Seq<char>>) -> Option<LinkOutcome>
    decreases pieces.len(),
{
    if pieces.len() == 0 {
        None
    } else {
        match link_outcome(pieces[0]) {
            LinkOutcome::Link { .. } => first_failure(pieces.drop_first()),
            o => Some(o),
        }
    }
}

/// Whether parsing the header would cut a field where it cannot be cut.
pub open spec fn header_unsliceable(header: Seq<char>) -> bool {
    first_failure(link_pieces(header)) == Some(LinkOutcome::Unsliceable)
}

/// The URL of the last link among `pieces` whose relevance is `name`.
pub open spec fn link_for(pieces: Seq<Seq<char>>, name: Seq<char>) -> Option<Seq<char>>
    decreases pieces.len(),
{
    if pieces.len() == 0 {
        None
    } else {
        match link_outcome(pieces.last()) {
            LinkOutcome::Link { url, rel } => if rel == name {
                Some(url)
            } else {
                link_for(pieces.drop_last(), name)
            },
            _ => link_for(pieces.drop_last(), name),
        }
    }
}

/// The message of a malformed-link error.
pub open spec fn fault_message(missing_relevance: bool) -> Seq<char> {
    if missing_relevance {
        "missing relevance"@
    } else {
        "missing semicolon"@
    }
}

/// The characters of an optional string slice.
pub open spec fn opt_chars(o: Option<&str>) -> Option<Seq<char>> {
    match o {
        Some(s) => Some(s@),
        None => None,
    }
}

/// When every piece before `k` is a link and piece `k` is not, piece `k`
/// decides the header; when every piece is a link, nothing fails.
pub proof fn lemma_first_failure_at(pieces: Seq<Seq<char>>, k: int)
    requires
        0 <= k <= pieces.len(),
        forall|i: int| 0 <= i < k ==> link_outcome(pieces[i]) is Link,
        k < pieces.len() ==> !(link_outcome(pieces[k]) is Link),
    ensures
        first_failure(pieces) == (if k == pieces.len() {
            None
        } else {
            Some(link_outcome(pieces[k]))
        }),
    decreases k,
{
    if k > 0 {
        let t = pieces.drop_first();
        assert forall|i: int| 0 <= i < k - 1 implies link_outcome(t[i]) is Link by {
            assert(t[i] == pieces[i + 1]);
        }
        if k < pieces.len() {
            assert(t[k - 1] == pieces[k]);
        }
        lemma_first_failure_at(t, k - 1);
    }
}

/// The five relevances that pagination knows are pairwise different.
pub proof fn lemma_relevances_distinct()
    ensures
        "current"@ != "next"@,
        "current"@ != "prev"@,
        "current"@ != "first"@,
        "current"@ != "last"@,
        "next"@ != "prev"@,
        "next"@ != "first"@,
        "next"@ != "last"@,
        "prev"@ != "first"@,
        "prev"@ != "last"@,
        "first"@ != "last"@,
{
    reveal_strlit("current");
    reveal_strlit("next");
    reveal_strlit("prev");
    reveal_strlit("first");
    reveal_strlit("last");
    assert("current"@[0] == 'c');
    assert("next"@[0] == 'n');
    assert("prev"@[0] == 'p');
    assert("first"@[0] == 'f');
    assert("last"@[0] == 'l');
}

/// Errors of [`Pagination`].
#[derive(Debug)]
pub enum Error {
    /// The response carries no `Link` header.
    MissingLinksHeader,
    /// No link has the requested relevance.
    MissingLink(&'static str),
    /// A piece of the header is malformed.
    MalformedLinkHeader { src: String, message: &'static str },
}

/// Pagination links borrowed from a `Link` header.
#[derive(Debug, Clone, Copy, PartialEq)]
pub struct Pagination<'h> {
    pub current: Option<&'h str>,
    pub next: Option<&'h str>,
    pub previous: Option<&'h str>,
    pub first: Option<&'h str>,
    pub last: Option<&'h str>,
}

/// Whether `p` holds, for each relevance, the URL of the last link in
/// `pieces` that has it.
pub open spec fn links_match(p: Pagination, pieces: Seq<Seq<char>>) -> bool {
    &&& opt_chars(p.current) == link_for(pieces, "current"@)
    &&& opt_chars(p.next) == link_for(pieces, "next"@)
    &&& opt_chars(p.previous) == link_for(pieces, "prev"@)
    &&& opt_chars(p.first) == link_for(pieces, "first"@)
    &&& opt_chars(p.last) == link_for(pieces, "last"@)
}

/// What one piece of the header yields: the URL as a slice of the header and
/// the bounds of the relevance within `chars`.
fn parse_link<'h>(header: &'h str, chars: &Vec<char>, lo: usize, hi: usize) -> (r: Result<
    (&'h str, usize, usize),
    Error,
>)
    requires
        chars@ == header@,
        lo <= hi <= chars.len(),
        link_outcome(chars@.subrange(lo as int, hi as int)) != LinkOutcome::Unsliceable,
    ensures
        match link_outcome(chars@.subrange(lo as int, hi as int)) {
            LinkOutcome::Link { url, rel } => r matches Ok((u, a, b)) && u@ == url && a <= b
                <= chars.len() && chars@.subrange(a as int, b as int) == rel,
            LinkOutcome::Fault { src, missing_relevance } => r matches Err(
                Error::MalformedLinkHeader { src: s, message: m },
            ) && s@ == src && m@ == fault_message(missing_relevance),
            LinkOutcome::Unsliceable => false,
        },
{
    let ghost link = chars@.subrange(lo as int, hi as int);
    let a = skip_whitespace(chars, lo, hi);
    let b = skip_whitespace_back(chars, a, hi);
    let ghost t = chars@.subrange(a as int, b as int);
    assert(trim(link) == t);
    let i = find_in(chars, a, b, ';');
    if i == b {
        let src = header.substring_char(lo, hi).to_owned();
        return Err(Error::MalformedLinkHeader { src, message: "missing semicolon" });
    }
    assert(t.take(i - a) =~= chars@.subrange(a as int, i as int));
    assert(t.skip(i - a + 1) =~= chars@.subrange(i + 1, b as int));
    let c = skip_whitespace(chars, i + 1, b);
    let j = find_in(chars, c, b, '=');
    if j == b {
        let src = header.substring_char(c, b).to_owned();
        return Err(Error::MalformedLinkHeader { src, message: "missing relevance" });
    }
    let ghost r = chars@.subrange(c as int, b as int);
    assert(r.skip(j - c + 1) =~= chars@.subrange(j + 1, b as int));
    let url = header.substring_char(a + 1, i - 1);
    assert(unwrap_field(chars@.subrange(a as int, i as int)) =~= chars@.subrange(
        a + 1,
        i - 1,
    ));
    assert(unwrap_field(chars@.subrange(j + 1, b as int)) =~= chars@.subrange(j + 2, b - 1));
    Ok((url, j + 2, b - 1))
}

/// Whether `r` is what parsing the `Link` header `header` gives: the links
/// when every piece is well formed, else the error of the first that is not.
pub open spec fn pagination_parsed(r: Result<Pagination, Error>, header: Seq<char>) -> bool {
    match first_failure(link_pieces(header)) {
        None => r matches Ok(p) && links_match(p, link_pieces(header)),
        Some(LinkOutcome::Fault { src, missing_relevance }) => r matches Err(
            Error::MalformedLinkHeader { src: s, message: m },
        ) && s@ == src && m@ == fault_message(missing_relevance),
        Some(_) => false,
    }
}

impl<'h> Pagination<'h> {
    /// Reads the pagination links of a response's `Link` header.
    ///
    /// Fails where the header is missing, where it is not visible ASCII
    /// (reporting its text) and where a piece is malformed.
    pub fn from_headers(headers: &'h HeaderMap) -> (r: Result<Pagination<'h>, Error>)
        requires
            !link_unreadable(*headers),
            link_text(*headers) matches Some(t) ==> !header_unsliceable(t),
        ensures
            match link_header(*headers) {
                None => r matches Err(Error::MissingLinksHeader),
                Some(b) => if visible_ascii(b) {
                    pagination_parsed(r, ascii_chars(b))
                } else {
                    r matches Err(Error::MalformedLinkHeader { src: s, message: m }) && s@
                        == decode_utf8(b) && m@ == "contained invalid characters"@
                },
            },
    {
        match read_link_header(headers) {
            Ok(text) => Pagination::from_links_header(text),
            Err(None) => Err(Error::MissingLinksHeader),
            Err(Some(src)) => Err(
                Error::MalformedLinkHeader { src, message: "contained invalid characters" },
            ),
        }
    }

    /// Parses the pagination links of a `Link` header.
    ///
    /// Fails with the first malformed piece; the input must not ask to cut a
    /// field where a character boundary does not allow it.
    pub fn from_links_header(header: &'h str) -> (r: Result<Pagination<'h>, Error>)
        requires
            !header_unsliceable(header@),
        ensures
            pagination_parsed(r, header@),
    {
        let chars = chars_of(header);
        let n = chars.len();
        let ghost pieces = link_pieces(header@);
        let mut p = Pagination { current: None, next: None, previous: None, first: None, last: None };
        let mut pos: usize = 0;
        let ghost mut k: int = 0;
        assert(chars@.subrange(0, n as int) =~= header@);
        loop
            invariant
                chars@ == header@,
                n == chars.len(),
                pos <= n,
                pieces == link_pieces(header@),
                0 <= k < pieces.len(),
                pieces.skip(k) == split_char(chars@.subrange(pos as int, n as int), ','),
                forall|i: int| 0 <= i < k ==> link_outcome(pieces[i]) is Link,
                links_match(p, pieces.take(k)),
                !header_unsliceable(header@),
            decreases n - pos,
        {
            let ghost sub = chars@.subrange(pos as int, n as int);
            let j = find_in(&chars, pos, n, ',');
            proof {
                lemma_find_char_bounds(sub, ',');
                assert(pieces.skip(k)[0] == pieces[k]);
                if j < n {
                    assert(sub.take(j - pos) =~= chars@.subrange(pos as int, j as int));
                    assert(sub.skip(j - pos + 1) =~= chars@.subrange(j + 1, n as int));
                    assert(pieces.skip(k + 1) =~= pieces.skip(k).drop_first());
                } else {
                    assert(pieces.skip(k).len() == 1);
                }
                assert(pieces[k] == chars@.subrange(pos as int, j as int));
                if !(link_outcome(pieces[k]) is Link) {
                    lemma_first_failure_at(pieces, k);
                }
            }
            match parse_link(header, &chars, pos, j) {
                Ok((url, a, b)) => {
                    proof {
                        assert(pieces.take(k + 1).drop_last() =~= pieces.take(k));
                        assert(pieces.take(k + 1).last() == pieces[k]);
                    }
                    if range_equals(&chars, a, b, "current") {
                        p.current = Some(url);
                    }
                    if range_equals(&chars, a, b, "next") {
                        p.next = Some(url);
                    }
                    if range_equals(&chars, a, b, "prev") {
                        p.previous = Some(url);
                    }
                    if range_equals(&chars, a, b, "first") {
                        p.first = Some(url);
                    }
                    if range_equals(&chars, a, b, "last") {
                        p.last = Some(url);
                    }
                    if j == n {
                        proof {
                            assert(pieces.len() == k + 1);
                            assert(pieces.take(k + 1) =~= pieces);
                            lemma_first_failure_at(pieces, k + 1);
                        }
                        return Ok(p);
                    }
                    pos = j + 1;
                    proof {
                        let rest = chars@.subrange(pos as int, n as int);
                        lemma_find_char_bounds(rest, ',');
                        assert(split_char(rest, ',').len() >= 1);
                        k = k + 1;
                    }
                },
                Err(e) => {
                    return Err(e);
                },
            }
        }
    }

    /// The link with relevance `current`.
    pub fn current(&self) -> (r: Result<&'h str, Error>)
        ensures
            match self.current {
                Some(s) => r == Ok::<&'h str, Error>(s),
                None => r matches Err(Error::MissingLink(n)) && n@ == "current"@,
            },
    {
        match self.current {
            Some(s) => Ok(s),
            None => Err(Error::MissingLink("current")),
        }
    }

    /// The link with relevance `next`.
    pub fn next(&self) -> (r: Result<&'h str, Error>)
        ensures
            match self.next {
                Some(s) => r == Ok::<&'h str, Error>(s),
                None => r matches Err(Error::MissingLink(n)) && n@ == "next"@,
            },
    {
        match self.next {
            Some(s) => Ok(s),
            None => Err(Error::MissingLink("next")),
        }
    }

    /// The link with relevance `prev`.
    pub fn previous(&self) -> (r: Result<&'h str, Error>)
        ensures
            match self.previous {
                Some(s) => r == Ok::<&'h str, Error>(s),
                None => r matches Err(Error::MissingLink(n)) && n@ == "previous"@,
            },
    {
        match self.previous {
            Some(s) => Ok(s),
            None => Err(Error::MissingLink("previous")),
        }
    }

    /// The link with relevance `first`.
    pub fn first(&self) -> (r: Result<&'h str, Error>)
        ensures
            match self.first {
                Some(s) => r == Ok::<&'h str, Error>(s),
                None => r matches Err(Error::MissingLink(n)) && n@ == "first"@,
            },
    {
        match self.first {
            Some(s) => Ok(s),
            None => Err(Error::MissingLink("first")),
        }
    }

    /// The link with relevance `last`.
    pub fn last(&self) -> (r: Result<&'h str, Error>)
        ensures
            match self.last {
                Some(s) => r == Ok::<&'h str, Error>(s),
                None => r matches Err(Error::MissingLink(n)) && n@ == "last"@,
            },
    {
        match self.last {
            Some(s) => Ok(s),
            None => Err(Error::MissingLink("last")),
        }
    }
}

/// What becomes of one piece of a header, with the bounds of a link's URL.
pub(crate) enum PieceKind {
    Unsliceable,
    Fault,
    Link { url_lo: usize, url_hi: usize },
}

/// Whether the character is one byte long in UTF-8.
fn single_byte(c: char) -> (b: bool)
    ensures
        b == ((c as u32) < 0x80),
{
    (c as u32) < 0x80
}

/// What becomes of the piece `chars[lo..hi]`.
pub(crate) fn classify_piece(chars: &Vec<char>, lo: usize, hi: usize) -> (k: PieceKind)
    requires
        lo <= hi <= chars.len(),
    ensures
        match link_outcome(chars@.subrange(lo as int, hi as int)) {
            LinkOutcome::Unsliceable => k is Unsliceable,
            LinkOutcome::Fault { .. } => k is Fault,
            LinkOutcome::Link { url, .. } => k matches PieceKind::Link { url_lo, url_hi }
                && url_lo <= url_hi <= chars.len() && chars@.subrange(url_lo as int, url_hi as int)
                == url,
        },
{
    let ghost link = chars@.subrange(lo as int, hi as int);
    let a = skip_whitespace(chars, lo, hi);
    let b = skip_whitespace_back(chars, a, hi);
    let ghost t = chars@.subrange(a as int, b as int);
    assert(trim(link) == t);
    let i = find_in(chars, a, b, ';');
    if i == b {
        return PieceKind::Fault;
    }
    assert(t.take(i - a) =~= chars@.subrange(a as int, i as int));
    assert(t.skip(i - a + 1) =~= chars@.subrange(i + 1, b as int));
    if i - a < 2 || !single_byte(chars[a]) || !single_byte(chars[i - 1]) {
        return PieceKind::Unsliceable;
    }
    let c = skip_whitespace(chars, i + 1, b);
    let j = find_in(chars, c, b, '=');
    if j == b {
        return PieceKind::Fault;
    }
    let ghost r = chars@.subrange(c as int, b as int);
    assert(r.skip(j - c + 1) =~= chars@.subrange(j + 1, b as int));
    if b - (j + 1) < 2 || !single_byte(chars[j + 1]) || !single_byte(chars[b - 1]) {
        return PieceKind::Unsliceable;
    }
    assert(unwrap_field(chars@.subrange(a as int, i as int)) =~= chars@.subrange(
        a + 1,
        i - 1,
    ));
    PieceKind::Link { url_lo: a + 1, url_hi: i - 1 }
}

/// Whether `from_links_header` can cut every field the header asks it to
/// cut; where it cannot, parsing the header is refused.
pub fn header_sliceable(header: &str) -> (b: bool)
    ensures
        b == !header_unsliceable(header@),
{
    let chars = chars_of(header);
    let n = chars.len();
    let ghost pieces = link_pieces(header@);
    let mut pos: usize = 0;
    let ghost mut k: int = 0;
    assert(chars@.subrange(0, n as int) =~= header@);
    loop
        invariant
            chars@ == header@,
            n == chars.len(),
            pos <= n,
            pieces == link_pieces(header@),
            0 <= k < pieces.len(),
            pieces.skip(k) == split_char(chars@.subrange(pos as int, n as int), ','),
            forall|i: int| 0 <= i < k ==> link_outcome(pieces[i]) is Link,
        decreases n - pos,
    {
        let ghost sub = chars@.subrange(pos as int, n as int);
        let j = find_in(&chars, pos, n, ',');
        proof {
            lemma_find_char_bounds(sub, ',');
            assert(pieces.skip(k)[0] == pieces[k]);
            if j < n {
                assert(sub.take(j - pos) =~= chars@.subrange(pos as int, j as int));
                assert(sub.skip(j - pos + 1) =~= chars@.subrange(j + 1, n as int));
                assert(pieces.skip(k + 1) =~= pieces.skip(k).drop_first());
            } else {
                assert(pieces.skip(k).len() == 1);
            }
            assert(pieces[k] == chars@.subrange(pos as int, j as int));
            if !(link_outcome(pieces[k]) is Link) {
                lemma_first_failure_at(pieces, k);
            }
        }
        match classify_piece(&chars, pos, j) {
            PieceKind::Unsliceable => {
                return false;
            },
            PieceKind::Fault => {
                return true;
            },
            PieceKind::Link { .. } => {},
        }
        if j == n {
            proof {
                assert(pieces.len() == k + 1);
                lemma_first_failure_at(pieces, k + 1);
            }
            return true;
        }
        pos = j + 1;
        proof {
            let rest = chars@.subrange(pos as int, n as int);
            lemma_find_char_bounds(rest, ',');
            assert(split_char(rest, ',').len() >= 1);
            k = k + 1;
        }
    }
}

/// Whether `Pagination::from_headers` can read these headers without a
/// panic: a `Link` header that is not visible ASCII is UTF-8, and one that is
/// can be cut where its format asks.
pub fn pagination_readable(headers: &HeaderMap) -> (b: bool)
    ensures
        b == (!link_unreadable(*headers) && (link_text(*headers) matches Some(t)
            ==> !header_unsliceable(t))),
{
    match link_value(headers) {
        None => true,
        Some(v) => match value_text(v) {
            Ok(text) => header_sliceable(text),
            Err(_) => str_from_utf8(value_as_bytes(v)).is_ok(),
        },
    }
}

} // verus!
