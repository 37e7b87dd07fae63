//! Pagination of Canvas API responses: the URIs of a `Link` header.
use crate::error::Error;
use crate::links::{
    classify_piece, PieceKind,
    fault_message, lemma_relevances_distinct, link_for, link_outcome, link_pieces, unwrap_field, unwrappable, LinkOutcome,
};
use crate::text::{
    chars_of, find_char, find_in, lemma_find_char_bounds, range_equals, skip_whitespace,
    skip_whitespace_back, split_char, trim, trim_start,
};
use crate::headers::{ascii_chars, link_header, link_text, link_unreadable, read_link_header, visible_ascii};
use hyper::header::HeaderMap;
use vstd::prelude::*;
use vstd::utf8::decode_utf8;

verus! {

/// The URI that `hyper` parses from a text, or `None` where it refuses it.
pub uninterp spec fn parsed_uri(text: Seq<char>) -> Option<hyper::Uri>;

/// Parses a URI with `<hyper::Uri as TryFrom<&str>>::try_from`, turning its
/// error into an `http` error. The contract claims only that the outcome is a
/// function of the text: `Ok` exactly when `parsed_uri` names a URI, and then
/// that URI.
#[verifier::external_body]
fn parse_uri(text: &str) -> (r: Result<hyper::Uri, hyper::http::Error>)
    ensures
        r is Ok <==> parsed_uri(text@) is Some,
        r matches Ok(u) ==> parsed_uri(text@) == Some(u),
{
    hyper::Uri::try_from(text).map_err(hyper::http::Error::from)
}

/// Whether a piece of a `Link` header is a link whose URI parses.
pub open spec fn piece_accepted(piece: Seq<char>) -> bool {
    link_outcome(piece) matches LinkOutcome::Link { url, .. } && parsed_uri(url) is Some
}

/// The index of the first piece that is not a link with a parsing URI.
pub open spec fn first_rejected(pieces: Seq<Seq<char>>) -> Option<int>
    decreases pieces.len(),
{
    if pieces.len() == 0 {
        None
    } else if piece_accepted(pieces[0]) {
        match first_rejected(pieces.drop_first()) {
            Some(i) => Some(i + 1),
            None => None,
        }
    } else {
        Some(0)
    }
}

/// The first rejected piece is the first piece that is not accepted.
pub proof fn lemma_first_rejected_at(pieces: Seq<Seq<char>>, k: int)
    requires
        0 <= k <= pieces.len(),
        forall|i: int| 0 <= i < k ==> piece_accepted(pieces[i]),
        k < pieces.len() ==> !piece_accepted(pieces[k]),
    ensures
        first_rejected(pieces) == (if k == pieces.len() {
            None::<int>
        } else {
            Some(k)
        }),
    decreases k,
{
    if k > 0 {
        let t = pieces.drop_first();
        assert forall|i: int| 0 <= i < k - 1 implies piece_accepted(t[i]) by {
            assert(t[i] == pieces[i + 1]);
        }
        if k < pieces.len() {
            assert(t[k - 1] == pieces[k]);
        }
        lemma_first_rejected_at(t, k - 1);
    }
}

/// Whether parsing the header would cut a field where it cannot be cut.
pub open spec fn uri_header_unsliceable(header: Seq<char>) -> bool {
    let pieces = link_pieces(header);
    first_rejected(pieces) matches Some(i) && link_outcome(pieces[i])
        == LinkOutcome::Unsliceable
}

/// The URI of the last link in `pieces` with relevance `name`.
pub open spec fn uri_for(pieces: Seq<Seq<char>>, name: Seq<char>) -> Option<hyper::Uri> {
    match link_for(pieces, name) {
        Some(url) => parsed_uri(url),
        None => None,
    }
}

/// The pagination links of a response.
#[derive(Debug, PartialEq, Eq)]
pub struct PaginationLinks {
    pub current: Option<hyper::Uri>,
    pub next: Option<hyper::Uri>,
    pub previous: Option<hyper::Uri>,
    pub first: Option<hyper::Uri>,
    pub last: Option<hyper::Uri>,
}

/// Whether `p` holds, for each relevance, the URI of the last link in
/// `pieces` that has it.
pub open spec fn uris_match(p: PaginationLinks, pieces: Seq<Seq<char>>) -> bool {
    &&& p.current == uri_for(pieces, "current"@)
    &&& p.next == uri_for(pieces, "next"@)
    &&& p.previous == uri_for(pieces, "prev"@)
    &&& p.first == uri_for(pieces, "first"@)
    &&& p.last == uri_for(pieces, "last"@)
}

/// Whether `r` is what parsing the `Link` header `header` gives: the links
/// when every piece is a link whose URI parses, else the error of the first
/// piece that is not.
pub open spec fn links_parsed(r: Result<PaginationLinks, Error>, header: Seq<char>) -> bool {
    match first_rejected(link_pieces(header)) {
        None => r matches Ok(p) && uris_match(p, link_pieces(header)),
        Some(i) => match link_outcome(link_pieces(header)[i]) {
            LinkOutcome::Fault { src, missing_relevance } => r matches Err(
                Error::MalformedLinkHeader { src: s, message: m },
            ) && s@ == src && m@ == fault_message(missing_relevance),
            LinkOutcome::Link { .. } => r matches Err(Error::Http(_)),
            LinkOutcome::Unsliceable => false,
        },
    }
}

/// Whether `r` is what reading the links of `headers` gives: an error where
/// the `Link` header is missing or not visible ASCII (with its text), else
/// what parsing its text gives.
pub open spec fn links_read(r: Result<PaginationLinks, Error>, headers: HeaderMap) -> bool {
    match link_header(headers) {
        None => r matches Err(Error::MissingLinksHeader),
        Some(b) => if visible_ascii(b) {
            links_parsed(r, ascii_chars(b))
        } else {
            r matches Err(Error::MalformedLinkHeader { src: s, message: m }) && s@ == decode_utf8(
                b,
            ) && m@ == "contained invalid characters"@
        },
    }
}

/// The URI and relevance bounds of one piece, or its error.
fn parse_uri_link(chars: &Vec<char>, header: &str, lo: usize, hi: usize) -> (r: Result<
    (hyper::Uri, usize, usize),
    Error,
>)
    requires
        chars@ == header@,
        lo <= hi <= chars.len(),
        link_outcome(chars@.subrange(lo as int, hi as int)) != LinkOutcome::Unsliceable,
    ensures
        match link_outcome(chars@.subrange(lo as int, hi as int)) {
            LinkOutcome::Link { url, rel } => match parsed_uri(url) {
                Some(uri) => r matches Ok((u, a, b)) && u == uri && a <= b <= chars.len()
                    && chars@.subrange(a as int, b as int) == rel,
                None => r matches Err(Error::Http(_)),
            },
            LinkOutcome::Fault { src, missing_relevance } => r matches Err(
                Error::MalformedLinkHeader { src: s, message: m },
            ) && s@ == src && m@ == fault_message(missing_relevance),
            LinkOutcome::Unsliceable => false,
        },
{
    let ghost link = chars@.subrange(lo as int, hi as int);
    let a = skip_whitespace(chars, lo, hi);
    let b = skip_whitespace_back(chars, a, hi);
    let ghost t = chars@.subrange(a as int, b as int);
    assert(trim(link) == t);
    let i = find_in(chars, a, b, ';');
    if i == b {
        let src = header.substring_char(lo, hi).to_owned();
        return Err(Error::MalformedLinkHeader { src, message: "missing semicolon" });
    }
    assert(t.take(i - a) =~= chars@.subrange(a as int, i as int));
    assert(t.skip(i - a + 1) =~= chars@.subrange(i + 1, b as int));
    let url = header.substring_char(a + 1, i - 1);
    assert(unwrap_field(chars@.subrange(a as int, i as int)) =~= chars@.subrange(
        a + 1,
        i - 1,
    ));
    let c = skip_whitespace(chars, i + 1, b);
    let j = find_in(chars, c, b, '=');
    if j == b {
        let src = header.substring_char(c, b).to_owned();
        return Err(Error::MalformedLinkHeader { src, message: "missing relevance" });
    }
    let ghost r = chars@.subrange(c as int, b as int);
    assert(r.skip(j - c + 1) =~= chars@.subrange(j + 1, b as int));
    assert(unwrap_field(chars@.subrange(j + 1, b as int)) =~= chars@.subrange(j + 2, b - 1));
    match parse_uri(url) {
        Ok(uri) => Ok((uri, j + 2, b - 1)),
        Err(e) => Err(Error::Http(e)),
    }
}

impl PaginationLinks {
    /// Parses the pagination links of a `Link` header into URIs.
    ///
    /// Fails with the first piece that is malformed or whose URI does not
    /// parse; the input must not ask to cut a field where a character
    /// boundary does not allow it.
    pub fn from_links_header(header: &str) -> (r: Result<PaginationLinks, Error>)
        requires
            !uri_header_unsliceable(header@),
        ensures
            links_parsed(r, header@),
    {
        let chars = chars_of(header);
        let n = chars.len();
        let ghost pieces = link_pieces(header@);
        let mut p = PaginationLinks {
            current: None,
            next: None,
            previous: None,
            first: None,
            last: None,
        };
        let mut pos: usize = 0;
        let ghost mut k: int = 0;
        assert(chars@.subrange(0, n as int) =~= header@);
        loop
            invariant
                chars@ == header@,
                n == chars.len(),
                pos <= n,
                pieces == link_pieces(header@),
                0 <= k < pieces.len(),
                pieces.skip(k) == split_char(chars@.subrange(pos as int, n as int), ','),
                forall|i: int| 0 <= i < k ==> piece_accepted(pieces[i]),
                uris_match(p, pieces.take(k)),
                !uri_header_unsliceable(header@),
            decreases n - pos,
        {
            let ghost sub = chars@.subrange(pos as int, n as int);
            let j = find_in(&chars, pos, n, ',');
            proof {
                lemma_find_char_bounds(sub, ',');
                assert(pieces.skip(k)[0] == pieces[k]);
                if j < n {
                    assert(sub.take(j - pos) =~= chars@.subrange(pos as int, j as int));
                    assert(sub.skip(j - pos + 1) =~= chars@.subrange(j + 1, n as int));
                    assert(pieces.skip(k + 1) =~= pieces.skip(k).drop_first());
                } else {
                    assert(pieces.skip(k).len() == 1);
                }
                assert(pieces[k] == chars@.subrange(pos as int, j as int));
                if !piece_accepted(pieces[k]) {
                    lemma_first_rejected_at(pieces, k);
                }
            }
            match parse_uri_link(&chars, header, pos, j) {
                Ok((uri, a, b)) => {
                    proof {
                        assert(pieces.take(k + 1).drop_last() =~= pieces.take(k));
                        assert(pieces.take(k + 1).last() == pieces[k]);
                    }
                    proof {
                        lemma_relevances_distinct();
                    }
                    if range_equals(&chars, a, b, "current") {
                        p.current = Some(uri);
                    } else if range_equals(&chars, a, b, "next") {
                        p.next = Some(uri);
                    } else if range_equals(&chars, a, b, "prev") {
                        p.previous = Some(uri);
                    } else if range_equals(&chars, a, b, "first") {
                        p.first = Some(uri);
                    } else if range_equals(&chars, a, b, "last") {
                        p.last = Some(uri);
                    }
                    if j == n {
                        proof {
                            assert(pieces.len() == k + 1);
                            assert(pieces.take(k + 1) =~= pieces);
                            lemma_first_rejected_at(pieces, k + 1);
                        }
                        return Ok(p);
                    }
                    pos = j + 1;
                    proof {
                        let rest = chars@.subrange(pos as int, n as int);
                        lemma_find_char_bounds(rest, ',');
                        assert(split_char(rest, ',').len() >= 1);
                        k = k + 1;
                    }
                },
                Err(e) => {
                    return Err(e);
                },
            }
        }
    }
    /// Parses the pagination links of a `Link` header where that can be done:
    /// `None` where parsing would have to cut a field where a character
    /// boundary does not allow it (where `from_links_header` is not to be
    /// called), else what `from_links_header` gives.
    pub fn checked_from_links_header(header: &str) -> (r: Option<Result<PaginationLinks, Error>>)
        ensures
            r is None <==> uri_header_unsliceable(header@),
            r matches Some(x) ==> links_parsed(x, header@),
    {
        if uri_header_sliceable(header) {
            Some(PaginationLinks::from_links_header(header))
        } else {
            None
        }
    }

    /// Reads the pagination links of a response's `Link` header where that
    /// can be done: `None` where the header is neither visible ASCII nor
    /// UTF-8, or asks to cut a field where a character boundary does not
    /// allow it (where `from_headers` is not to be called), else what
    /// `from_headers` gives.
    pub fn checked_from_headers(headers: &HeaderMap) -> (r: Option<Result<PaginationLinks, Error>>)
        ensures
            r is None <==> !crate::paging::links_readable(*headers),
            r matches Some(x) ==> links_read(x, *headers),
    {
        if crate::paging::links_readable_in(headers) {
            Some(PaginationLinks::from_headers(headers))
        } else {
            None
        }
    }

    /// Reads the pagination links of a response's `Link` header.
    ///
    /// Fails where the header is missing, where it is not visible ASCII
    /// (reporting its text) and where the links do not parse.
    pub fn from_headers(headers: &HeaderMap) -> (r: Result<PaginationLinks, Error>)
        requires
            !link_unreadable(*headers),
            link_text(*headers) matches Some(t) ==> !uri_header_unsliceable(t),
        ensures
            links_read(r, *headers),
    {
        match read_link_header(headers) {
            Ok(text) => PaginationLinks::from_links_header(text),
            Err(None) => Err(Error::MissingLinksHeader),
            Err(Some(src)) => Err(
                Error::MalformedLinkHeader { src, message: "contained invalid characters" },
            ),
        }
    }

    /// The link with relevance `current`.
    pub fn current(&self) -> (r: Result<&hyper::Uri, Error>)
        ensures
            link_got(r, self.current, "current"@),
    {
        got(&self.current, "current")
    }

    /// The link with relevance `next`.
    pub fn next(&self) -> (r: Result<&hyper::Uri, Error>)
        ensures
            link_got(r, self.next, "next"@),
    {
        got(&self.next, "next")
    }

    /// The link with relevance `prev`.
    pub fn previous(&self) -> (r: Result<&hyper::Uri, Error>)
        ensures
            link_got(r, self.previous, "previous"@),
    {
        got(&self.previous, "previous")
    }

    /// The link with relevance `first`.
    pub fn first(&self) -> (r: Result<&hyper::Uri, Error>)
        ensures
            link_got(r, self.first, "first"@),
    {
        got(&self.first, "first")
    }

    /// The link with relevance `last`.
    pub fn last(&self) -> (r: Result<&hyper::Uri, Error>)
        ensures
            link_got(r, self.last, "last"@),
    {
        got(&self.last, "last")
    }
}

/// Whether `r` is the link `link` where there is one, and else the error
/// that names the missing link `name`.
pub open spec fn link_got(r: Result<&hyper::Uri, Error>, link: Option<hyper::Uri>, name: Seq<char>) -> bool {
    match link {
        Some(u) => r matches Ok(v) && *v == u,
        None => r matches Err(Error::MissingPaginationLink(n)) && n@ == name,
    }
}

/// The link if there is one, else the error that names it.
fn got<'a>(link: &'a Option<hyper::Uri>, name: &'static str) -> (r: Result<&'a hyper::Uri, Error>)
    ensures
        link_got(r, *link, name@),
{
    match link {
        Some(u) => Ok(u),
        None => Err(Error::MissingPaginationLink(name)),
    }
}

/// Whether `PaginationLinks::from_links_header` can cut every field the
/// header asks it to cut before it stops; where it cannot, parsing the header
/// is refused.
pub fn uri_header_sliceable(header: &str) -> (b: bool)
    ensures
        b == !uri_header_unsliceable(header@),
{
    let chars = chars_of(header);
    let n = chars.len();
    let ghost pieces = link_pieces(header@);
    let mut pos: usize = 0;
    let ghost mut k: int = 0;
    assert(chars@.subrange(0, n as int) =~= header@);
    loop
        invariant
            chars@ == header@,
            n == chars.len(),
            pos <= n,
            pieces == link_pieces(header@),
            0 <= k < pieces.len(),
            pieces.skip(k) == split_char(chars@.subrange(pos as int, n as int), ','),
            forall|i: int| 0 <= i < k ==> piece_accepted(pieces[i]),
        decreases n - pos,
    {
        let ghost sub = chars@.subrange(pos as int, n as int);
        let j = find_in(&chars, pos, n, ',');
        proof {
            lemma_find_char_bounds(sub, ',');
            assert(pieces.skip(k)[0] == pieces[k]);
            if j < n {
                assert(sub.take(j - pos) =~= chars@.subrange(pos as int, j as int));
                assert(sub.skip(j - pos + 1) =~= chars@.subrange(j + 1, n as int));
                assert(pieces.skip(k + 1) =~= pieces.skip(k).drop_first());
            } else {
                assert(pieces.skip(k).len() == 1);
            }
            assert(pieces[k] == chars@.subrange(pos as int, j as int));
            if !piece_accepted(pieces[k]) {
                lemma_first_rejected_at(pieces, k);
            }
        }
        match classify_piece(&chars, pos, j) {
            PieceKind::Unsliceable => {
                return false;
            },
            PieceKind::Fault => {
                return true;
            },
            PieceKind::Link { url_lo, url_hi } => {
                match parse_uri(header.substring_char(url_lo, url_hi)) {
                    Ok(_) => {},
                    Err(_) => {
                        return true;
                    },
                }
            },
        }
        if j == n {
            proof {
                assert(pieces.len() == k + 1);
                lemma_first_rejected_at(pieces, k + 1);
            }
            return true;
        }
        pos = j + 1;
        proof {
            let rest = chars@.subrange(pos as int, n as int);
            lemma_find_char_bounds(rest, ',');
            assert(split_char(rest, ',').len() >= 1);
            k = k + 1;
        }
    }
}

} // verus!
