//! Errors of the Canvas client, and the outside types they carry.
use miette::SourceOffset;
use vstd::prelude::*;
use vstd::utf8::encode_utf8;

verus! {

/// Errors of the Canvas client.
#[derive(Debug)]
pub enum Error {
    /// The HTTP client failed.
    Hyper(hyper::Error),
    /// A URI or request could not be built.
    Http(hyper::http::Error),
    /// The response carries no `Link` header.
    MissingLinksHeader,
    /// A piece of the `Link` header is malformed.
    MalformedLinkHeader { src: String, message: &'static str },
    /// No pagination link has the requested relevance.
    MissingPaginationLink(&'static str),
    /// The server refused the credentials.
    Unauthorized,
    /// The server answered with a status code that the client does not
    /// handle; `headers` and `body` are those of that response.
    UnknownHttpStatus { code: u16, headers: hyper::HeaderMap, body: hyper::Body },
    /// A response body is not the JSON that was expected; `json` holds the
    /// text around the error and `err_loc` the error's place within it.
    MalformedJson { source: serde_json::Error, json: String, err_loc: (usize, usize) },
}

/// A byte offset into a source text, as `miette` reports it.
#[verifier::external_type_specification]
#[verifier::external_body]
pub struct ExSourceOffset(SourceOffset);

/// The one-based line at which a JSON error was detected.
pub uninterp spec fn json_error_line(e: serde_json::Error) -> usize;

/// The one-based column at which a JSON error was detected.
pub uninterp spec fn json_error_column(e: serde_json::Error) -> usize;

/// The offset that `miette` finds for a line and column of a text.
pub uninterp spec fn located(source: Seq<char>, line: usize, column: usize) -> SourceOffset;

/// The byte offset that a source offset holds.
pub uninterp spec fn offset_of(o: SourceOffset) -> usize;

/// Whether the byte index `k` of the UTF-8 encoding of `s` falls between two
/// characters.
pub open spec fn char_boundary(s: Seq<char>, k: int) -> bool {
    exists|i: int| 0 <= i <= s.len() && #[trigger] encode_utf8(s.take(i)).len() == k
}

/// `serde_json::Error::line`.
#[verifier::external_body]
fn error_line(e: &serde_json::Error) -> (r: usize)
    ensures
        r == json_error_line(*e),
{
    e.line()
}

/// `serde_json::Error::column`.
#[verifier::external_body]
fn error_column(e: &serde_json::Error) -> (r: usize)
    ensures
        r == json_error_column(*e),
{
    e.column()
}

/// `SourceOffset::from_location`: the offset of a one-based line and column,
/// or the end of the text where they lie beyond it. The contract claims that
/// the offset is a character boundary within the text, which the function
/// reaches by adding up the UTF-8 lengths of the characters before it.
#[verifier::external_body]
fn source_offset(source: &str, line: usize, column: usize) -> (r: SourceOffset)
    ensures
        r == located(source@, line, column),
        offset_of(r) <= encode_utf8(source@).len(),
        char_boundary(source@, offset_of(r) as int),
{
    SourceOffset::from_location(source, line, column)
}

/// `SourceOffset::offset`.
#[verifier::external_body]
fn offset_value(o: &SourceOffset) -> (r: usize)
    ensures
        r == offset_of(*o),
{
    o.offset()
}

/// Whether byte indices `from` and `to` fall on character boundaries, in
/// order, within the UTF-8 encoding of `s`.
pub open spec fn str_range_valid(s: Seq<char>, from: int, to: int) -> bool {
    from <= to <= encode_utf8(s).len() && char_boundary(s, from) && char_boundary(s, to)
}

/// `str::get` with a range of byte indices: the text between them where both
/// fall on character boundaries, in order, within the text; else `None`.
#[verifier::external_body]
fn str_get(s: &str, from: usize, to: usize) -> (r: Option<&str>)
    ensures
        r is Some <==> str_range_valid(s@, from as int, to as int),
        r matches Some(t) ==> encode_utf8(t@) == encode_utf8(s@).subrange(from as int, to as int),
{
    s.get(from..to)
}

/// The byte offset of a JSON error in its text.
pub open spec fn json_error_offset(e: serde_json::Error, json: Seq<char>) -> int {
    offset_of(located(json, json_error_line(e), json_error_column(e))) as int
}

/// Where the window of text shown around a JSON error starts: up to forty
/// bytes before the error.
pub open spec fn window_start(offset: int) -> int {
    if offset >= 40 {
        offset - 40
    } else {
        0
    }
}

/// Where the window of text shown around a JSON error ends: up to forty
/// bytes after the error.
pub open spec fn window_end(offset: int, len: int) -> int {
    if len - offset < 40 {
        len
    } else {
        offset + 40
    }
}

/// Whether the window around a JSON error can be cut out of its text: both
/// ends fall on character boundaries.
pub open spec fn window_cuttable(e: serde_json::Error, json: Seq<char>) -> bool {
    let o = json_error_offset(e, json);
    let n = encode_utf8(json).len() as int;
    char_boundary(json, window_start(o)) && char_boundary(json, window_end(o, n))
}

/// Whether `r` is the JSON error built from `e` and `json`: the error with
/// the text from forty bytes before to forty bytes after the place of the
/// error, and that place within it.
pub open spec fn json_error_built(r: Error, e: serde_json::Error, json: Seq<char>) -> bool {
    let o = json_error_offset(e, json);
    let n = encode_utf8(json).len() as int;
    r matches Error::MalformedJson { source, json: snipped, err_loc } && source == e
        && encode_utf8(snipped@) == encode_utf8(json).subrange(window_start(o), window_end(o, n))
        && err_loc == ((o - window_start(o)) as usize, 0usize)
}

/// The window around a JSON error, or the error and text back where it
/// cannot be cut out.
fn build_json_error(err: serde_json::Error, json: String) -> (r: Result<
    Error,
    (serde_json::Error, String),
>)
    ensures
        window_cuttable(err, json@) ==> (r matches Ok(x) && json_error_built(x, err, json@)),
        !window_cuttable(err, json@) ==> r == Err::<Error, (serde_json::Error, String)>(
            (err, json),
        ),
{
    let line = error_line(&err);
    let column = error_column(&err);
    let text = json.as_str();
    let located = source_offset(text, line, column);
    let offset = offset_value(&located);
    let json_len = text.as_bytes().len();
    let local_offset = offset.saturating_sub(40);
    let local_len: usize = if json_len - offset < 40 {
        json_len - offset
    } else {
        40
    };
    let snipped = match str_get(text, local_offset, offset + local_len) {
        Some(s) => s.to_owned(),
        None => {
            return Err((err, json));
        },
    };
    Ok(Error::MalformedJson { source: err, json: snipped, err_loc: (offset - local_offset, 0) })
}

impl Error {
    /// The error of JSON that did not parse, with the text around the place of
    /// the error (forty bytes on each side) and that place within it.
    ///
    /// The window must be cut at character boundaries.
    pub fn from_json_err(err: serde_json::Error, json: String) -> (r: Error)
        requires
            window_cuttable(err, json@),
        ensures
            json_error_built(r, err, json@),
    {
        match build_json_error(err, json) {
            Ok(e) => e,
            Err((err, _)) => {
                proof {
                    assert(false);
                }
                Error::MalformedJson { source: err, json: String::new(), err_loc: (0, 0) }
            },
        }
    }

    /// The error of JSON that did not parse, as `from_json_err` builds it,
    /// where its window can be cut at character boundaries; else the error
    /// and text are handed back.
    pub fn try_from_json_err(err: serde_json::Error, json: String) -> (r: Result<
        Error,
        (serde_json::Error, String),
    >)
        ensures
            window_cuttable(err, json@) ==> (r matches Ok(x) && json_error_built(x, err, json@)),
            !window_cuttable(err, json@) ==> r == Err::<Error, (serde_json::Error, String)>(
                (err, json),
            ),
    {
        build_json_error(err, json)
    }
}

} // verus!
