//! The `Link` header of an HTTP response, as `http`'s header map holds it.
use hyper::header::ToStrError;
use hyper::header::{HeaderMap, HeaderValue};
use std::str::Utf8Error;
use vstd::prelude::*;
use vstd::utf8::{decode_utf8, valid_utf8};

verus! {

/// A map of HTTP headers.
#[verifier::external_type_specification]
#[verifier::external_body]
#[verifier::reject_recursive_types(T)]
pub struct ExHeaderMap<T>(HeaderMap<T>);

/// The value of one HTTP header.
#[verifier::external_type_specification]
#[verifier::external_body]
pub struct ExHeaderValue(HeaderValue);

/// The error of a header value that is not visible ASCII.
#[verifier::external_type_specification]
#[verifier::external_body]
pub struct ExToStrError(ToStrError);

/// The error of bytes that are not UTF-8.
#[verifier::external_type_specification]
#[verifier::external_body]
pub struct ExUtf8Error(Utf8Error);

/// The bytes of the first `Link` header in a header map, if it has one.
pub uninterp spec fn link_header(headers: HeaderMap) -> Option<Seq<u8>>;

/// The bytes of a header value.
pub uninterp spec fn value_bytes(value: HeaderValue) -> Seq<u8>;

/// Whether every byte is visible ASCII or a tab, as a header value must be
/// to read as text.
pub open spec fn visible_ascii(bytes: Seq<u8>) -> bool {
    forall|i: int| 0 <= i < bytes.len() ==> ((32 <= #[trigger] bytes[i] && bytes[i] < 127) || bytes[i] == 9)
}

/// The characters of ASCII bytes.
pub open spec fn ascii_chars(bytes: Seq<u8>) -> Seq<char> {
    Seq::new(bytes.len(), |i: int| bytes[i] as char)
}

/// `HeaderMap::clone`: the map derives `Clone`, which copies every field, so
/// the copy equals the original.
#[verifier::external_body]
pub(crate) fn clone_headers(headers: &HeaderMap) -> (r: HeaderMap)
    ensures
        r == *headers,
{
    headers.clone()
}

/// `HeaderMap::get` with the `Link` header's name: the first value of that
/// header, if there is one.
#[verifier::external_body]
pub(crate) fn link_value<'a>(headers: &'a HeaderMap) -> (r: Option<&'a HeaderValue>)
    ensures
        match r {
            Some(v) => link_header(*headers) == Some(value_bytes(*v)),
            None => link_header(*headers) is None,
        },
{
    headers.get(hyper::header::LINK)
}

/// `HeaderValue::to_str`: the value as text where every byte is visible ASCII
/// or a tab, else an error.
#[verifier::external_body]
pub(crate) fn value_text<'a>(value: &'a HeaderValue) -> (r: Result<&'a str, ToStrError>)
    ensures
        r is Ok <==> visible_ascii(value_bytes(*value)),
        r matches Ok(s) ==> s@ == ascii_chars(value_bytes(*value)),
{
    value.to_str()
}

/// `HeaderValue::as_bytes`.
#[verifier::external_body]
pub(crate) fn value_as_bytes<'a>(value: &'a HeaderValue) -> (r: &'a [u8])
    ensures
        r@ == value_bytes(*value),
{
    value.as_bytes()
}

/// `std::str::from_utf8`: the text of UTF-8 bytes, else an error.
#[verifier::external_body]
pub(crate) fn str_from_utf8<'a>(bytes: &'a [u8]) -> (r: Result<&'a str, Utf8Error>)
    ensures
        r is Ok <==> valid_utf8(bytes@),
        r matches Ok(s) ==> s@ == decode_utf8(bytes@),
{
    std::str::from_utf8(bytes)
}

/// What a `Link` header's bytes read as: its text where it is visible ASCII.
pub open spec fn link_text(headers: HeaderMap) -> Option<Seq<char>> {
    match link_header(headers) {
        Some(b) => if visible_ascii(b) {
            Some(ascii_chars(b))
        } else {
            None
        },
        None => None,
    }
}

/// Whether reading the `Link` header as text for an error report would fail:
/// it is not visible ASCII and not UTF-8 either.
pub open spec fn link_unreadable(headers: HeaderMap) -> bool {
    link_header(headers) matches Some(b) && !visible_ascii(b) && !valid_utf8(b)
}

/// Reads the `Link` header: `Err(None)` where it is missing, `Err(Some(text))`
/// where it is not visible ASCII (with its UTF-8 text), else its text.
pub(crate) fn read_link_header<'a>(headers: &'a HeaderMap) -> (r: Result<&'a str, Option<String>>)
    requires
        !link_unreadable(*headers),
    ensures
        match link_header(*headers) {
            None => r == Err::<&str, Option<String>>(None),
            Some(b) => if visible_ascii(b) {
                r matches Ok(s) && s@ == ascii_chars(b)
            } else {
                r matches Err(Some(t)) && t@ == decode_utf8(b)
            },
        },
{
    match link_value(headers) {
        None => Err(None),
        Some(v) => match value_text(v) {
            Ok(s) => Ok(s),
            Err(_) => match str_from_utf8(value_as_bytes(v)) {
                Ok(s) => Err(Some(s.to_owned())),
                Err(_) => {
                    proof {
                        assert(false);
                    }
                    Err(None)
                },
            },
        },
    }
}

} // verus!
