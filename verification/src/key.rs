//! Cache keys and their fixed-length byte encodings.
//!
//! A key is stored as bytes whose lexicographic order groups the entries of a
//! view together: the view (Canvas instance and viewer) comes first, the
//! resource key after it.
use crate::bytes::{
    append_bytes, be_bytes_u32, be_bytes_u64, lemma_u32_be_roundtrip, lemma_u64_be_roundtrip, u32_from_be,
    u32_from_be_bytes, u64_from_be, u64_from_be_bytes,
};
use crate::headers::str_from_utf8;
use crate::id::{decimal_digits, u64_decimal, Id};
use std::string::FromUtf8Error;
use vstd::prelude::*;
use vstd::view::View as _;
use vstd::utf8::{decode_utf8, encode_utf8, valid_utf8};

verus! {

/// Errors of key encoding and decoding.
#[derive(Debug)]
pub enum Error {
    /// The byte stream yielded something other than what the key needs.
    UnexpectedStreamYield { expected: &'static str, actual: &'static str },
    /// A Canvas base URL cannot be stored or read back.
    IllegalCanvasBaseUrl {
        base_url: String,
        location: Option<(usize, usize)>,
        problem: &'static str,
    },
    /// A viewer's discriminant byte is unknown.
    IllegalViewerDiscriminant { discriminant: u8 },
}

/// A stream of bytes that keys are read from, front to back.
#[derive(Debug)]
pub struct ByteStream {
    bytes: Vec<u8>,
    pos: usize,
}

impl vstd::view::View for ByteStream {
    type V = Seq<u8>;

    /// The bytes not yet read.
    closed spec fn view(&self) -> Seq<u8> {
        self.bytes@.skip(self.pos as int)
    }
}

impl ByteStream {
    #[verifier::type_invariant]
    spec fn inv(&self) -> bool {
        self.pos <= self.bytes.len()
    }

    /// A stream over `bytes`.
    pub fn new(bytes: Vec<u8>) -> (s: ByteStream)
        ensures
            s@ == bytes@,
    {
        let s = ByteStream { bytes, pos: 0 };
        assert(s.bytes@.skip(0) =~= s.bytes@);
        s
    }

    /// The number of bytes not yet read.
    pub fn remaining(&self) -> (n: usize)
        ensures
            n == self@.len(),
    {
        proof {
            use_type_invariant(self);
        }
        self.bytes.len() - self.pos
    }

    /// Reads the next byte, if there is one.
    pub fn next(&mut self) -> (r: Option<u8>)
        ensures
            old(self)@.len() == 0 ==> r is None && final(self)@ == old(self)@,
            old(self)@.len() > 0 ==> r == Some(old(self)@[0]) && final(self)@ == old(
                self,
            )@.drop_first(),
    {
        proof {
            use_type_invariant(&*self);
        }
        if self.pos < self.bytes.len() {
            let b = self.bytes[self.pos];
            self.pos = self.pos + 1;
            proof {
                assert(self.bytes@.skip(self.pos as int) =~= old(self)@.drop_first());
            }
            Some(b)
        } else {
            None
        }
    }
}

/// How many bytes a read of `n` bytes takes from a stream holding `bytes`.
pub open spec fn taken(bytes: Seq<u8>, n: nat) -> nat {
    if bytes.len() < n {
        bytes.len()
    } else {
        n
    }
}

/// Reads `n` bytes when the stream holds them; takes what there is otherwise.
fn take_exact(bytes: &mut ByteStream, n: usize) -> (r: Option<Vec<u8>>)
    ensures
        final(bytes)@ == old(bytes)@.skip(taken(old(bytes)@, n as nat) as int),
        old(bytes)@.len() >= n ==> (r matches Some(v) && v@ == old(bytes)@.take(n as int)),
        old(bytes)@.len() < n ==> r is None,
{
    let mut v: Vec<u8> = Vec::new();
    let mut i: usize = 0;
    while i < n
        invariant
            i <= n,
            i <= old(bytes)@.len(),
            v@ == old(bytes)@.take(i as int),
            bytes@ == old(bytes)@.skip(i as int),
        decreases n - i,
    {
        match bytes.next() {
            Some(b) => {
                v.push(b);
                i = i + 1;
                assert(v@ =~= old(bytes)@.take(i as int));
                assert(bytes@ =~= old(bytes)@.skip(i as int));
            },
            None => {
                return None;
            },
        }
    }
    Some(v)
}

/// A key that can be stored as bytes and read back from a byte stream.
pub trait Key: Sized + vstd::view::View {
    /// The length in bytes of the serialized key.
    spec fn ser_len() -> nat;

    /// The bytes of a key, or `None` where the key cannot be serialized.
    spec fn encoding(k: Self::V) -> Option<Seq<u8>>;

    /// The key read from the front of `bytes`, or `None` where reading fails.
    spec fn decoding(bytes: Seq<u8>) -> Option<Self::V>;

    /// How many bytes reading a key from `bytes` takes, whether it succeeds
    /// or not.
    spec fn consumed(bytes: Seq<u8>) -> nat;

    /// The length in bytes of the serialized key.
    fn ser_len_exec() -> (n: usize)
        ensures
            n == Self::ser_len(),
    ;

    /// Serializes the key.
    fn serialize(&self) -> (r: Result<Vec<u8>, Error>)
        ensures
            match Self::encoding(self@) {
                Some(b) => r matches Ok(v) && v@ == b,
                None => r is Err,
            },
    ;

    /// Reads a key from the front of `bytes`.
    fn deserialize(bytes: &mut ByteStream) -> (r: Result<Self, Error>)
        ensures
            Self::consumed(old(bytes)@) <= old(bytes)@.len(),
            final(bytes)@ == old(bytes)@.skip(Self::consumed(old(bytes)@) as int),
            match Self::decoding(old(bytes)@) {
                Some(v) => r matches Ok(k) && k@ == v,
                None => r is Err,
            },
    ;
}

/// The first eight bytes as an ID, if there are eight.
pub open spec fn id_decoding(bytes: Seq<u8>) -> Option<u64> {
    if bytes.len() >= 8 {
        Some(u64_from_be(bytes))
    } else {
        None
    }
}

impl Key for Id {
    open spec fn ser_len() -> nat {
        8
    }

    open spec fn encoding(k: u64) -> Option<Seq<u8>> {
        Some(be_bytes_u64(k))
    }

    open spec fn decoding(bytes: Seq<u8>) -> Option<u64> {
        id_decoding(bytes)
    }

    open spec fn consumed(bytes: Seq<u8>) -> nat {
        taken(bytes, 8)
    }

    fn ser_len_exec() -> (n: usize) {
        8
    }

    fn serialize(&self) -> (r: Result<Vec<u8>, Error>) {
        let b = self.to_be_bytes();
        let mut v: Vec<u8> = Vec::new();
        let mut i: usize = 0;
        while i < 8
            invariant
                i <= 8,
                b@ == be_bytes_u64(self@),
                v@ == b@.take(i as int),
            decreases 8 - i,
        {
            v.push(b[i]);
            i = i + 1;
            assert(v@ =~= b@.take(i as int));
        }
        assert(v@ =~= b@);
        Ok(v)
    }

    fn deserialize(bytes: &mut ByteStream) -> (r: Result<Id, Error>)
        ensures
            r is Ok || (r matches Err(Error::UnexpectedStreamYield { expected, actual }) && expected@
                == "byte of canvas id"@ && actual@ == "end of stream"@),
    {
        match take_exact(bytes, 8) {
            Some(v) => {
                let a = [v[0], v[1], v[2], v[3], v[4], v[5], v[6], v[7]];
                assert(a@ =~= v@);
                Ok(Id::from_be_bytes(a))
            },
            None => Err(
                Error::UnexpectedStreamYield {
                    expected: "byte of canvas id",
                    actual: "end of stream",
                },
            ),
        }
    }
}

/// The maximum length of a Canvas instance's base URL in bytes. Shorter
/// URLs are padded with zero bytes and longer ones cannot be serialized, so
/// that no instance's key is a prefix of another's.
pub const MAX_CANVAS_LENGTH: usize = 64;

/// The Canvas instance whose data a view shows.
#[derive(Debug, Clone, PartialEq, Eq, Hash)]
pub struct Canvas {
    pub base_url: String,
}

impl vstd::view::View for Canvas {
    type V = Seq<char>;

    open spec fn view(&self) -> Seq<char> {
        self.base_url@
    }
}

/// `n` zero bytes.
pub open spec fn zeros(n: nat) -> Seq<u8> {
    Seq::new(n, |i: int| 0u8)
}

/// The stored form of a base URL: its UTF-8 bytes padded with zero bytes to
/// the maximum length, where it has no zero byte and fits.
pub open spec fn canvas_encoding(url: Seq<char>) -> Option<Seq<u8>> {
    let b = encode_utf8(url);
    if b.contains(0u8) || b.len() > MAX_CANVAS_LENGTH {
        None
    } else {
        Some(b + zeros((MAX_CANVAS_LENGTH - b.len()) as nat))
    }
}

/// The bytes a base URL is read from: those within the maximum length that
/// come before the first zero byte.
pub open spec fn canvas_window(bytes: Seq<u8>) -> Seq<u8> {
    let w = bytes.take(taken(bytes, MAX_CANVAS_LENGTH as nat) as int);
    match first_zero(w) {
        Some(i) => w.take(i),
        None => w,
    }
}

/// The index of the first zero byte, if any.
pub open spec fn first_zero(s: Seq<u8>) -> Option<int>
    decreases s.len(),
{
    if s.len() == 0 {
        None
    } else if s[0] == 0 {
        Some(0)
    } else {
        match first_zero(s.drop_first()) {
            Some(i) => Some(i + 1),
            None => None,
        }
    }
}

/// `first_zero` is the first index that holds a zero byte.
pub proof fn lemma_first_zero_at(s: Seq<u8>, k: int)
    requires
        0 <= k <= s.len(),
        forall|i: int| 0 <= i < k ==> s[i] != 0,
        k == s.len() || s[k] == 0,
    ensures
        first_zero(s) == (if k == s.len() {
            None::<int>
        } else {
            Some(k)
        }),
    decreases k,
{
    if k > 0 {
        let t = s.drop_first();
        assert forall|i: int| 0 <= i < k - 1 implies t[i] != 0 by {
            assert(t[i] == s[i + 1]);
        }
        if k < s.len() {
            assert(t[k - 1] == s[k]);
        }
        lemma_first_zero_at(t, k - 1);
    }
}

/// How many bytes reading a base URL takes: the whole stored form (the
/// maximum length), or what the stream holds where it holds less.
pub open spec fn canvas_consumed(bytes: Seq<u8>) -> nat {
    taken(bytes, MAX_CANVAS_LENGTH as nat)
}

/// The bytes that `String::from_utf8` refused, as its error holds them.
pub uninterp spec fn rejected_bytes(e: FromUtf8Error) -> Seq<u8>;

/// The debug text (`{:#?}`) of `Ok(s)` for a text `s`, as std writes it.
pub uninterp spec fn debug_ok_text(s: Seq<char>) -> Seq<char>;

/// `String::from_utf8`: std documents that it succeeds exactly on valid
/// UTF-8 and then holds the decoded characters, and that its error gives the
/// bytes back.
#[verifier::external_body]
fn string_from_utf8(bytes: Vec<u8>) -> (r: Result<String, FromUtf8Error>)
    ensures
        r is Ok <==> valid_utf8(bytes@),
        r matches Ok(s) ==> s@ == decode_utf8(bytes@),
        r matches Err(e) ==> rejected_bytes(e) == bytes@,
{
    String::from_utf8(bytes)
}

/// Whether `n` is the length of the longest prefix of `b` that is UTF-8.
pub open spec fn utf8_valid_up_to(b: Seq<u8>, n: int) -> bool {
    &&& 0 <= n <= b.len()
    &&& valid_utf8(b.take(n))
    &&& forall|m: int| n < m <= b.len() ==> !valid_utf8(#[trigger] b.take(m))
}

/// The length of the longest prefix of `b` that is UTF-8.
pub open spec fn utf8_valid_len(b: Seq<u8>) -> int {
    choose|n: int| utf8_valid_up_to(b, n)
}

/// `FromUtf8Error::utf8_error` and `Utf8Error::valid_up_to`: std documents
/// the result as the maximum index up to which the refused bytes are UTF-8.
#[verifier::external_body]
fn valid_up_to(e: &FromUtf8Error) -> (n: usize)
    ensures
        utf8_valid_up_to(rejected_bytes(*e), n as int),
{
    e.utf8_error().valid_up_to()
}

/// `FromUtf8Error::as_bytes`: the refused bytes.
#[verifier::external_body]
fn refused_bytes(e: &FromUtf8Error) -> (r: &[u8])
    ensures
        r@ == rejected_bytes(*e),
{
    e.as_bytes()
}

/// `format!("{:#?}", ..)` of `Ok(s)`, a successful `str::from_utf8`.
#[verifier::external_body]
fn debug_ok(s: &str) -> (r: String)
    ensures
        r@ == debug_ok_text(s@),
{
    format!("{:#?}", Ok::<&str, std::str::Utf8Error>(s))
}

/// The longest UTF-8 prefix of a sequence of bytes is unique.
proof fn lemma_utf8_valid_len(b: Seq<u8>, n: int)
    requires
        utf8_valid_up_to(b, n),
    ensures
        utf8_valid_len(b) == n,
{
    let m = utf8_valid_len(b);
    assert(utf8_valid_up_to(b, m));
    if m < n {
        assert(!valid_utf8(b.take(n)));
    } else if n < m {
        assert(!valid_utf8(b.take(m)));
    }
}

/// The report of bytes that are not UTF-8: the debug text of their longest
/// UTF-8 prefix read as text, and that prefix's length.
pub open spec fn invalid_utf8_report(b: Seq<u8>) -> Seq<char> {
    let n = utf8_valid_len(b);
    debug_ok_text(decode_utf8(b.take(n))) + " followed by "@ + decimal_digits(n as nat)
        + " invalid bytes"@
}

/// Describes bytes that are not UTF-8: the debug text of the longest UTF-8
/// prefix read as text, and the prefix's length.
fn describe_invalid_utf8(e: &FromUtf8Error) -> (s: String)
    ensures
        s@ == invalid_utf8_report(rejected_bytes(*e)),
{
    let n = valid_up_to(e);
    let bytes = refused_bytes(e);
    proof {
        lemma_utf8_valid_len(rejected_bytes(*e), n as int);
    }
    let mut prefix: Vec<u8> = Vec::new();
    append_bytes(&mut prefix, bytes, 0, n);
    assert(prefix@ =~= rejected_bytes(*e).take(n as int));
    let mut s = match str_from_utf8(prefix.as_slice()) {
        Ok(text) => debug_ok(text),
        Err(_) => {
            proof {
                assert(false);
            }
            String::new()
        },
    };
    s.append(" followed by ");
    s.append(u64_decimal(n as u64).as_str());
    s.append(" invalid bytes");
    s
}

/// The std error of UTF-8 conversion.
#[verifier::external_type_specification]
#[verifier::external_body]
pub struct ExFromUtf8Error(FromUtf8Error);

impl Key for Canvas {
    open spec fn ser_len() -> nat {
        MAX_CANVAS_LENGTH as nat
    }

    open spec fn encoding(k: Seq<char>) -> Option<Seq<u8>> {
        canvas_encoding(k)
    }

    open spec fn decoding(bytes: Seq<u8>) -> Option<Seq<char>> {
        let w = canvas_window(bytes);
        if valid_utf8(w) {
            Some(decode_utf8(w))
        } else {
            None
        }
    }

    open spec fn consumed(bytes: Seq<u8>) -> nat {
        canvas_consumed(bytes)
    }

    fn ser_len_exec() -> (n: usize) {
        MAX_CANVAS_LENGTH
    }

    fn serialize(&self) -> (r: Result<Vec<u8>, Error>)
        ensures
            r matches Err(e) ==> {
                if encode_utf8(self@).contains(0u8) {
                    (e matches Error::UnexpectedStreamYield { expected, actual } && expected@
                        == "non-null byte"@ && actual@ == "null byte"@)
                } else {
                    (e matches Error::IllegalCanvasBaseUrl { base_url, location, problem }
                        && base_url@ == self@ && location == Some(
                        (MAX_CANVAS_LENGTH, (encode_utf8(self@).len() - 1) as usize),
                    ) && problem@ == "exceeds maximum length"@)
                }
            },
    {
        let b = self.base_url.as_str().as_bytes();
        let n = b.len();
        let mut i: usize = 0;
        while i < n
            invariant
                i <= n,
                n == b@.len(),
                b@ == encode_utf8(self@),
                forall|j: int| 0 <= j < i ==> b@[j] != 0,
            decreases n - i,
        {
            if b[i] == 0 {
                return Err(
                    Error::UnexpectedStreamYield { expected: "non-null byte", actual: "null byte" },
                );
            }
            i = i + 1;
        }
        assert(!b@.contains(0u8));
        if n > MAX_CANVAS_LENGTH {
            return Err(
                Error::IllegalCanvasBaseUrl {
                    base_url: self.base_url.clone(),
                    location: Some((MAX_CANVAS_LENGTH, n - 1)),
                    problem: "exceeds maximum length",
                },
            );
        }
        let mut v: Vec<u8> = Vec::new();
        let mut k: usize = 0;
        while k < n
            invariant
                k <= n,
                n == b@.len(),
                v@ == b@.take(k as int),
            decreases n - k,
        {
            v.push(b[k]);
            k = k + 1;
            assert(v@ =~= b@.take(k as int));
        }
        while v.len() < MAX_CANVAS_LENGTH
            invariant
                n <= v.len() <= MAX_CANVAS_LENGTH,
                v@ == b@ + zeros((v.len() - n) as nat),
            decreases MAX_CANVAS_LENGTH - v.len(),
        {
            v.push(0u8);
            assert(v@ =~= b@ + zeros((v.len() - n) as nat));
        }
        Ok(v)
    }

    fn deserialize(bytes: &mut ByteStream) -> (r: Result<Canvas, Error>)
        ensures
            r matches Err(e) ==> (e matches Error::IllegalCanvasBaseUrl {
                base_url,
                location,
                problem,
            } && location is None && problem@ == "invalid UTF-8"@ && base_url@
                == invalid_utf8_report(canvas_window(old(bytes)@))),
    {
        let ghost start = bytes@;
        let ghost w = start.take(taken(start, MAX_CANVAS_LENGTH as nat) as int);
        let mut v: Vec<u8> = Vec::new();
        let mut i: usize = 0;
        let mut hit_zero = false;
        let mut ended = false;
        while i < MAX_CANVAS_LENGTH && !hit_zero && !ended
            invariant
                i <= MAX_CANVAS_LENGTH,
                i <= start.len(),
                ended ==> i == start.len() && !hit_zero,
                w == start.take(taken(start, MAX_CANVAS_LENGTH as nat) as int),
                !hit_zero ==> v@ == start.take(i as int) && bytes@ == start.skip(i as int)
                    && forall|j: int| 0 <= j < i ==> start[j] != 0,
                hit_zero ==> i >= 1 && start[i - 1] == 0 && v@ == start.take(i - 1)
                    && bytes@ == start.skip(i as int) && forall|j: int|
                    0 <= j < i - 1 ==> start[j] != 0,
            decreases MAX_CANVAS_LENGTH - i + (if ended || hit_zero {
                0int
            } else {
                1int
            }),
        {
            match bytes.next() {
                None => {
                    ended = true;
                },
                Some(byte) => {
                    i = i + 1;
                    if byte == 0 {
                        hit_zero = true;
                    } else {
                        v.push(byte);
                    }
                    assert(bytes@ =~= start.skip(i as int));
                    assert(v@ =~= start.take(i as int) || hit_zero);
                },
            }
        }
        proof {
            if hit_zero {
                lemma_first_zero_at(w, i - 1);
                assert(w.take(i - 1) =~= v@);
            } else {
                assert(i == w.len());
                assert(w =~= v@);
                lemma_first_zero_at(w, i as int);
            }
        }
        // the padding after the first zero byte belongs to the stored form too
        let mut k = i;
        let mut drained = ended;
        while k < MAX_CANVAS_LENGTH && !drained
            invariant
                i <= k <= MAX_CANVAS_LENGTH,
                k <= start.len(),
                bytes@ == start.skip(k as int),
                drained ==> k == start.len(),
            decreases MAX_CANVAS_LENGTH - k + (if drained {
                0int
            } else {
                1int
            }),
        {
            match bytes.next() {
                None => {
                    drained = true;
                },
                Some(_) => {
                    k = k + 1;
                    assert(bytes@ =~= start.skip(k as int));
                },
            }
        }
        match string_from_utf8(v) {
            Ok(s) => Ok(Canvas { base_url: s }),
            Err(e) => Err(
                Error::IllegalCanvasBaseUrl {
                    base_url: describe_invalid_utf8(&e),
                    location: None,
                    problem: "invalid UTF-8",
                },
            ),
        }
    }
}

/// Who views the data of a Canvas instance.
#[derive(Debug, Clone, Copy, PartialEq, Eq, Hash, Structural)]
pub enum Viewer {
    User(Id),
}

impl vstd::view::View for Viewer {
    type V = u64;

    open spec fn view(&self) -> u64 {
        match self {
            Viewer::User(id) => id@,
        }
    }
}

/// The stored form of a viewer: a zero discriminant, then the user ID.
pub open spec fn viewer_encoding(user: u64) -> Seq<u8> {
    seq![0u8] + be_bytes_u64(user)
}

/// The viewer read from the front of `bytes`, if it can be.
pub open spec fn viewer_decoding(bytes: Seq<u8>) -> Option<u64> {
    if bytes.len() == 0 || bytes[0] != 0 {
        None
    } else {
        id_decoding(bytes.drop_first())
    }
}

/// How many bytes reading a viewer takes.
pub open spec fn viewer_consumed(bytes: Seq<u8>) -> nat {
    if bytes.len() == 0 {
        0
    } else if bytes[0] != 0 {
        1
    } else {
        1 + taken(bytes.drop_first(), 8)
    }
}

impl Key for Viewer {
    open spec fn ser_len() -> nat {
        9
    }

    open spec fn encoding(k: u64) -> Option<Seq<u8>> {
        Some(viewer_encoding(k))
    }

    open spec fn decoding(bytes: Seq<u8>) -> Option<u64> {
        viewer_decoding(bytes)
    }

    open spec fn consumed(bytes: Seq<u8>) -> nat {
        viewer_consumed(bytes)
    }

    fn ser_len_exec() -> (n: usize) {
        9
    }

    fn serialize(&self) -> (r: Result<Vec<u8>, Error>) {
        match self {
            Viewer::User(id) => {
                let b = id.to_be_bytes();
                let mut v: Vec<u8> = Vec::new();
                v.push(0u8);
                let mut i: usize = 0;
                while i < 8
                    invariant
                        i <= 8,
                        b@ == be_bytes_u64(id@),
                        v@ == seq![0u8] + b@.take(i as int),
                    decreases 8 - i,
                {
                    v.push(b[i]);
                    i = i + 1;
                    assert(v@ =~= seq![0u8] + b@.take(i as int));
                }
                assert(b@.take(8) =~= b@);
                Ok(v)
            },
        }
    }

    fn deserialize(bytes: &mut ByteStream) -> (r: Result<Viewer, Error>)
        ensures
            old(bytes)@.len() == 0 ==> (r matches Err(Error::UnexpectedStreamYield { expected, actual })
                && expected@ == "discriminant"@ && actual@ == "end of stream"@),
            old(bytes)@.len() > 0 && old(bytes)@[0] != 0 ==> r == Err::<Viewer, Error>(
                Error::IllegalViewerDiscriminant { discriminant: old(bytes)@[0] },
            ),
            old(bytes)@.len() > 0 && old(bytes)@[0] == 0 && old(bytes)@.len() < 9 ==> (r matches Err(
                Error::UnexpectedStreamYield { expected, actual },
            ) && expected@ == "eight-byte user id"@ && actual@ == "end of stream"@),
    {
        let ghost start = bytes@;
        let discriminant = match bytes.next() {
            Some(d) => d,
            None => {
                return Err(
                    Error::UnexpectedStreamYield { expected: "discriminant", actual: "end of stream" },
                );
            },
        };
        if discriminant != 0 {
            return Err(Error::IllegalViewerDiscriminant { discriminant });
        }
        match take_exact(bytes, 8) {
            Some(v) => {
                let a = [v[0], v[1], v[2], v[3], v[4], v[5], v[6], v[7]];
                assert(a@ =~= v@);
                assert(start.drop_first().skip(8) =~= start.skip(9));
                Ok(Viewer::User(Id::from_be_bytes(a)))
            },
            None => {
                assert(start.drop_first().skip(start.drop_first().len() as int) =~= start.skip(
                    start.len() as int,
                ));
                Err(
                    Error::UnexpectedStreamYield {
                        expected: "eight-byte user id",
                        actual: "end of stream",
                    },
                )
            },
        }
    }
}

/// A view of cached data: the Canvas instance and who views it.
#[derive(Debug, Clone, PartialEq, Eq, Hash)]
pub struct View {
    pub truth: Canvas,
    pub viewer: Viewer,
}

impl vstd::view::View for View {
    type V = (Seq<char>, u64);

    open spec fn view(&self) -> (Seq<char>, u64) {
        (self.truth@, self.viewer@)
    }
}

/// The stored form of a view: its Canvas instance, then its viewer.
pub open spec fn view_encoding(v: (Seq<char>, u64)) -> Option<Seq<u8>> {
    match canvas_encoding(v.0) {
        Some(c) => Some(c + viewer_encoding(v.1)),
        None => None,
    }
}

/// The view read from the front of `bytes`, if it can be.
pub open spec fn view_decoding(bytes: Seq<u8>) -> Option<(Seq<char>, u64)> {
    match <Canvas as Key>::decoding(bytes) {
        Some(c) => match viewer_decoding(bytes.skip(canvas_consumed(bytes) as int)) {
            Some(u) => Some((c, u)),
            None => None,
        },
        None => None,
    }
}

/// How many bytes reading a view takes.
pub open spec fn view_consumed(bytes: Seq<u8>) -> nat {
    match <Canvas as Key>::decoding(bytes) {
        Some(c) => canvas_consumed(bytes) + viewer_consumed(
            bytes.skip(canvas_consumed(bytes) as int),
        ),
        None => canvas_consumed(bytes),
    }
}

impl Key for View {
    open spec fn ser_len() -> nat {
        (MAX_CANVAS_LENGTH + 9) as nat
    }

    open spec fn encoding(k: (Seq<char>, u64)) -> Option<Seq<u8>> {
        view_encoding(k)
    }

    open spec fn decoding(bytes: Seq<u8>) -> Option<(Seq<char>, u64)> {
        view_decoding(bytes)
    }

    open spec fn consumed(bytes: Seq<u8>) -> nat {
        view_consumed(bytes)
    }

    fn ser_len_exec() -> (n: usize) {
        MAX_CANVAS_LENGTH + 9
    }

    fn serialize(&self) -> (r: Result<Vec<u8>, Error>) {
        let mut v = self.truth.serialize()?;
        let mut w = self.viewer.serialize()?;
        v.append(&mut w);
        Ok(v)
    }

    fn deserialize(bytes: &mut ByteStream) -> (r: Result<View, Error>) {
        let ghost start = bytes@;
        let truth = Canvas::deserialize(bytes)?;
        let ghost mid = bytes@;
        let viewer = Viewer::deserialize(bytes)?;
        assert(start.skip(canvas_consumed(start) as int).skip(
            viewer_consumed(mid) as int,
        ) =~= start.skip(view_consumed(start) as int));
        Ok(View { truth, viewer })
    }
}

/// The key of a submission: its assignment, its user and the attempt.
#[derive(Debug, Clone, Copy, PartialEq, Eq, Hash, Structural)]
pub struct SubmissionKey {
    assignment: Id,
    user: Id,
    attempt: u32,
}

impl vstd::view::View for SubmissionKey {
    type V = (u64, u64, u32);

    closed spec fn view(&self) -> (u64, u64, u32) {
        (self.assignment@, self.user@, self.attempt)
    }
}

impl SubmissionKey {
    /// The key of a submission with the given assignment, user and attempt;
    /// a submission without an attempt counts as attempt 0.
    pub fn from_parts(assignment: Id, user: Id, attempt: Option<u32>) -> (k: SubmissionKey)
        ensures
            k@ == (assignment@, user@, match attempt {
                Some(a) => a,
                None => 0u32,
            }),
    {
        SubmissionKey {
            assignment,
            user,
            attempt: match attempt {
                Some(a) => a,
                None => 0,
            },
        }
    }
}

/// The stored form of a submission key.
pub open spec fn submission_encoding(k: (u64, u64, u32)) -> Seq<u8> {
    be_bytes_u64(k.0) + be_bytes_u64(k.1) + be_bytes_u32(k.2)
}

/// The submission key read from the front of `bytes`, if there are enough.
pub open spec fn submission_decoding(bytes: Seq<u8>) -> Option<(u64, u64, u32)> {
    if bytes.len() >= 20 {
        Some((u64_from_be(bytes), u64_from_be(bytes.skip(8)), u32_from_be(bytes.skip(16))))
    } else {
        None
    }
}

impl Key for SubmissionKey {
    open spec fn ser_len() -> nat {
        20
    }

    open spec fn encoding(k: (u64, u64, u32)) -> Option<Seq<u8>> {
        Some(submission_encoding(k))
    }

    open spec fn decoding(bytes: Seq<u8>) -> Option<(u64, u64, u32)> {
        submission_decoding(bytes)
    }

    open spec fn consumed(bytes: Seq<u8>) -> nat {
        taken(bytes, 20)
    }

    fn ser_len_exec() -> (n: usize) {
        20
    }

    fn serialize(&self) -> (r: Result<Vec<u8>, Error>) {
        let mut buf = self.assignment.serialize()?;
        let mut user = self.user.serialize()?;
        buf.append(&mut user);
        let att = crate::bytes::u32_to_be_bytes(self.attempt);
        let ghost before = buf@;
        let mut i: usize = 0;
        while i < 4
            invariant
                i <= 4,
                att@ == be_bytes_u32(self.attempt),
                buf@ == before + att@.take(i as int),
            decreases 4 - i,
        {
            buf.push(att[i]);
            i = i + 1;
            assert(buf@ =~= before + att@.take(i as int));
        }
        assert(att@.take(4) =~= att@);
        Ok(buf)
    }

    fn deserialize(bytes: &mut ByteStream) -> (r: Result<SubmissionKey, Error>)
        ensures
            r is Ok || (r matches Err(Error::UnexpectedStreamYield { expected, actual }) && (
            expected@ == (if old(bytes)@.len() < 16 {
                "byte of canvas id"@
            } else {
                "four-byte attempt id"@
            })) && actual@ == "end of stream"@),
    {
        let ghost start = bytes@;
        let assignment = Id::deserialize(bytes)?;
        let user = Id::deserialize(bytes)?;
        assert(start.skip(8).skip(8) =~= start.skip(16));
        match take_exact(bytes, 4) {
            Some(v) => {
                let a = [v[0], v[1], v[2], v[3]];
                assert(a@ =~= v@);
                assert(start.skip(16).skip(4) =~= start.skip(20));
                Ok(SubmissionKey { assignment, user, attempt: u32_from_be_bytes(a) })
            },
            None => {
                assert(start.skip(16).skip(start.skip(16).len() as int) =~= start.skip(
                    start.len() as int,
                ));
                Err(
                    Error::UnexpectedStreamYield {
                        expected: "four-byte attempt id",
                        actual: "end of stream",
                    },
                )
            },
        }
    }
}

/// Reading an ID back from its bytes, whatever follows them, gives the ID and
/// takes exactly its eight bytes.
pub proof fn lemma_id_key_roundtrip(k: u64, rest: Seq<u8>)
    ensures
        be_bytes_u64(k).len() == <Id as Key>::ser_len(),
        <Id as Key>::decoding(be_bytes_u64(k) + rest) == Some(k),
        <Id as Key>::consumed(be_bytes_u64(k) + rest) == 8,
{
    let b = be_bytes_u64(k) + rest;
    lemma_u64_be_roundtrip(k);
    assert(u64_from_be(b) == u64_from_be(be_bytes_u64(k)));
}

/// Reading a viewer back from its bytes gives the viewer and takes exactly
/// its nine bytes.
pub proof fn lemma_viewer_key_roundtrip(user: u64, rest: Seq<u8>)
    ensures
        viewer_encoding(user).len() == <Viewer as Key>::ser_len(),
        viewer_decoding(viewer_encoding(user) + rest) == Some(user),
        viewer_consumed(viewer_encoding(user) + rest) == 9,
{
    let b = viewer_encoding(user) + rest;
    assert(b.drop_first() =~= be_bytes_u64(user) + rest);
    lemma_id_key_roundtrip(user, rest);
}

/// Reading a submission key back from its bytes gives the key and takes
/// exactly its twenty bytes.
pub proof fn lemma_submission_key_roundtrip(k: (u64, u64, u32), rest: Seq<u8>)
    ensures
        submission_encoding(k).len() == <SubmissionKey as Key>::ser_len(),
        submission_decoding(submission_encoding(k) + rest) == Some(k),
        taken(submission_encoding(k) + rest, 20) == 20,
{
    let b = submission_encoding(k) + rest;
    lemma_u64_be_roundtrip(k.0);
    lemma_u64_be_roundtrip(k.1);
    lemma_u32_be_roundtrip(k.2);
    assert(u64_from_be(b) == u64_from_be(be_bytes_u64(k.0)));
    assert(u64_from_be(b.skip(8)) == u64_from_be(be_bytes_u64(k.1)));
    assert(u32_from_be(b.skip(16)) == u32_from_be(be_bytes_u32(k.2)));
}

/// Reading a base URL back from its stored bytes, whatever follows them,
/// gives the URL; it takes all 64 stored bytes, padding included, and
/// nothing that follows them.
pub proof fn lemma_canvas_key_roundtrip(url: Seq<char>, rest: Seq<u8>)
    requires
        canvas_encoding(url) is Some,
    ensures
        canvas_encoding(url).unwrap().len() == <Canvas as Key>::ser_len(),
        <Canvas as Key>::decoding(canvas_encoding(url).unwrap() + rest) == Some(url),
        canvas_consumed(canvas_encoding(url).unwrap() + rest) == MAX_CANVAS_LENGTH,
{
    broadcast use vstd::utf8::encode_utf8_valid_utf8, vstd::utf8::encode_utf8_decode_utf8;

    let u = encode_utf8(url);
    let e = canvas_encoding(url).unwrap();
    let b = e + rest;
    let w = b.take(MAX_CANVAS_LENGTH as int);
    assert(w =~= e);
    assert forall|i: int| 0 <= i < u.len() implies w[i] != 0 by {
        assert(w[i] == u[i]);
        if w[i] == 0 {
            assert(u.contains(0u8));
        }
    }
    if u.len() < MAX_CANVAS_LENGTH {
        assert(w[u.len() as int] == 0);
        lemma_first_zero_at(w, u.len() as int);
        assert(w.take(u.len() as int) =~= u);
    } else {
        lemma_first_zero_at(w, u.len() as int);
        assert(w =~= u);
    }
}

/// Two base URLs that can both be stored have the same stored form only when
/// they are the same URL, so no two instances share a key prefix.
pub proof fn lemma_canvas_encoding_injective(a: Seq<char>, b: Seq<char>)
    requires
        canvas_encoding(a) is Some,
        canvas_encoding(b) is Some,
        canvas_encoding(a) == canvas_encoding(b),
    ensures
        a == b,
{
    lemma_canvas_key_roundtrip(a, Seq::empty());
    lemma_canvas_key_roundtrip(b, Seq::empty());
}

/// Reading a view back from its bytes gives the view, and takes exactly its
/// bytes, for every view that can be stored.
pub proof fn lemma_view_key_roundtrip(v: (Seq<char>, u64), rest: Seq<u8>)
    requires
        view_encoding(v) is Some,
    ensures
        view_encoding(v).unwrap().len() == <View as Key>::ser_len(),
        view_decoding(view_encoding(v).unwrap() + rest) == Some(v),
        view_consumed(view_encoding(v).unwrap() + rest) == <View as Key>::ser_len(),
{
    let c = canvas_encoding(v.0).unwrap();
    let b = view_encoding(v).unwrap() + rest;
    let tail = viewer_encoding(v.1) + rest;
    assert(b =~= c + tail);
    lemma_canvas_key_roundtrip(v.0, tail);
    assert(b.skip(MAX_CANVAS_LENGTH as int) =~= tail);
    lemma_viewer_key_roundtrip(v.1, rest);
}

} // verus!
