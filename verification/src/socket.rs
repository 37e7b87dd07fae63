//! The address of the update server's socket: its query, encoded as
//! `application/x-www-form-urlencoded`, names the Canvas instance, the user,
//! the kind of resources and the time since which updates are wanted.
use crate::id::{decimal_digits, Id};
use crate::resource::{kind_name, ResourceKind};
use serde_urlencoded::ser::Error as UrlEncodeError;
use vstd::prelude::*;
use vstd::utf8::encode_utf8;

verus! {

/// The error of `serde_urlencoded`'s serializer.
#[verifier::external_type_specification]
#[verifier::external_body]
pub struct ExUrlEncodeError(UrlEncodeError);

/// The hexadecimal digit, in upper case, for `d < 16`.
pub open spec fn hex_digit(d: u8) -> char {
    if d < 10 {
        (('0' as u8) + d) as char
    } else {
        (('A' as u8) + (d - 10)) as char
    }
}

/// How a byte is written in a form-encoded text: ASCII letters, digits and
/// `*`, `-`, `.`, `_` as they are, a space as `+`, and any other byte as `%`
/// and its two hexadecimal digits.
pub open spec fn form_byte(b: u8) -> Seq<char> {
    if (48 <= b <= 57) || (65 <= b <= 90) || (97 <= b <= 122) || b == 42 || b == 45 || b == 46
        || b == 95 {
        seq![b as char]
    } else if b == 32 {
        seq!['+']
    } else {
        seq!['%', hex_digit(b / 16), hex_digit(b % 16)]
    }
}

/// The form encoding of a sequence of bytes, byte after byte.
pub open spec fn form_bytes(bs: Seq<u8>) -> Seq<char>
    decreases bs.len(),
{
    if bs.len() == 0 {
        Seq::empty()
    } else {
        form_byte(bs[0]) + form_bytes(bs.drop_first())
    }
}

/// The form encoding of a name and a value: their UTF-8 bytes encoded,
/// joined by `=`.
pub open spec fn form_pair(name: Seq<char>, value: Seq<char>) -> Seq<char> {
    form_bytes(encode_utf8(name)) + "="@ + form_bytes(encode_utf8(value))
}

/// The form encoding of a list of names and values: each pair encoded, the
/// pairs joined by `&`.
pub open spec fn form_encoded(pairs: Seq<(Seq<char>, Seq<char>)>) -> Seq<char>
    decreases pairs.len(),
{
    if pairs.len() == 0 {
        Seq::empty()
    } else if pairs.len() == 1 {
        form_pair(pairs[0].0, pairs[0].1)
    } else {
        form_encoded(pairs.drop_last()) + "&"@ + form_pair(pairs.last().0, pairs.last().1)
    }
}

/// The texts of a list of names and values.
pub open spec fn text_pairs(pairs: Seq<(String, String)>) -> Seq<(Seq<char>, Seq<char>)> {
    pairs.map_values(|p: (String, String)| (p.0@, p.1@))
}

/// `serde_urlencoded::to_string` of a list of pairs of texts: each pair is
/// handed to `form_urlencoded`'s `append_pair`, which writes a `&` before
/// every pair but the first and the name and value through `byte_serialize`;
/// a pair of texts is never refused.
#[verifier::external_body]
fn form_urlencode(pairs: &Vec<(String, String)>) -> (r: Result<String, UrlEncodeError>)
    ensures
        r is Ok,
        r matches Ok(s) ==> s@ == form_encoded(text_pairs(pairs@)),
{
    serde_urlencoded::to_string(pairs)
}

/// The address of the socket that sends the updates of the resources of one
/// kind that the user `user_id` sees on the Canvas instance `canvas`, from
/// the time `since` (as RFC 3339 text) on.
pub fn update_url(canvas: &str, user_id: Id, kind: ResourceKind, since: &str) -> (r: String)
    ensures
        r@ == "ws://localhost:4210/ebauche/update?"@ + form_encoded(
            seq![
                ("canvas"@, canvas@),
                ("user_id"@, decimal_digits(user_id@ as nat)),
                ("resource_kind"@, kind_name(kind)),
                ("since"@, since@),
            ],
        ),
{
    let mut pairs: Vec<(String, String)> = Vec::new();
    pairs.push((String::from_str("canvas"), String::from_str(canvas)));
    pairs.push((String::from_str("user_id"), user_id.to_string()));
    pairs.push((String::from_str("resource_kind"), String::from_str(kind.as_str())));
    pairs.push((String::from_str("since"), String::from_str(since)));
    assert(text_pairs(pairs@) =~= seq![
        ("canvas"@, canvas@),
        ("user_id"@, decimal_digits(user_id@ as nat)),
        ("resource_kind"@, kind_name(kind)),
        ("since"@, since@),
    ]);
    match form_urlencode(&pairs) {
        Ok(query) => {
            let mut url = String::from_str("ws://localhost:4210/ebauche/update?");
            url.append(query.as_str());
            url
        },
        Err(_) => {
            proof {
                assert(false);
            }
            String::new()
        },
    }
}

} // verus!
