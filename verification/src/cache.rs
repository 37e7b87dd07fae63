//! Cached resources under a view: the store key of a resource, reading one
//! back, and reading the resource key of a stored entry.
use crate::bytes::{append_bytes, be_bytes_u64};
use crate::id::Id;
use crate::key::{
    canvas_encoding, lemma_canvas_encoding_injective, lemma_canvas_key_roundtrip,
    lemma_id_key_roundtrip, lemma_submission_key_roundtrip, lemma_viewer_key_roundtrip,
    submission_encoding, view_encoding, viewer_encoding, ByteStream, Error, Key, SubmissionKey, View,
};
use crate::store::{has_prefix, Store};
use crate::update::concat_bytes;
use vstd::prelude::*;
use vstd::view::View as _;

verus! {

/// The store key of a resource with key `key` under `view`: the view's
/// encoding, then the key's; `None` where either cannot be encoded.
pub open spec fn entry_key_bytes<K: Key>(view: (Seq<char>, u64), key: K::V) -> Option<Seq<u8>> {
    match (<View as Key>::encoding(view), K::encoding(key)) {
        (Some(a), Some(b)) => Some(a + b),
        _ => None,
    }
}

/// The store key of a resource with key `key` under `view`.
pub fn entry_key<K: Key>(view: &View, key: &K) -> (r: Result<Vec<u8>, Error>)
    ensures
        match entry_key_bytes::<K>(view@, key@) {
            Some(b) => r matches Ok(v) && v@ == b,
            None => r is Err,
        },
{
    let v = view.serialize()?;
    let k = key.serialize()?;
    Ok(concat_bytes(v.as_slice(), k.as_slice()))
}

/// The stored bytes of the resource with key `key` under `view`, if there
/// are any.
pub fn get<S: Store, K: Key>(store: &S, view: &View, key: &K) -> (r: Result<Option<Vec<u8>>, Error>)
    ensures
        match entry_key_bytes::<K>(view@, key@) {
            Some(b) => (store.infallible() ==> r is Ok) && (r matches Ok(o) ==> (o is Some
                <==> store.entries().contains_key(b)) && (o matches Some(v) ==> v@
                == store.entries()[b])),
            None => r is Err,
        },
{
    let kb = entry_key(view, key)?;
    store.get(kb.as_slice())
}

/// The bytes of a store key after the view's part.
pub open spec fn after_view(key_bytes: Seq<u8>) -> Seq<u8> {
    let n = <View as Key>::ser_len();
    if key_bytes.len() < n {
        Seq::empty()
    } else {
        key_bytes.skip(n as int)
    }
}

/// The resource key of a stored entry, read after the view's part of its
/// store key.
pub fn resource_key<K: Key>(key_bytes: &[u8]) -> (r: Result<K, Error>)
    ensures
        match K::decoding(after_view(key_bytes@)) {
            Some(k) => r matches Ok(x) && x@ == k,
            None => r is Err,
        },
{
    let n = View::ser_len_exec();
    let mut rest: Vec<u8> = Vec::new();
    if key_bytes.len() >= n {
        append_bytes(&mut rest, key_bytes, n, key_bytes.len());
        assert(rest@ =~= after_view(key_bytes@));
    } else {
        assert(rest@ =~= after_view(key_bytes@));
    }
    let mut stream = ByteStream::new(rest);
    K::deserialize(&mut stream)
}

/// A view's store key takes exactly the view's length, whatever the view.
proof fn lemma_view_encoding_len(v: (Seq<char>, u64))
    requires
        view_encoding(v) is Some,
    ensures
        view_encoding(v).unwrap().len() == <View as Key>::ser_len(),
        view_encoding(v).unwrap() == canvas_encoding(v.0).unwrap() + viewer_encoding(v.1),
{
    lemma_canvas_key_roundtrip(v.0, Seq::empty());
    lemma_viewer_key_roundtrip(v.1, Seq::empty());
}

/// Distinct views have distinct store keys.
proof fn lemma_view_encoding_injective(v1: (Seq<char>, u64), v2: (Seq<char>, u64))
    requires
        view_encoding(v1) is Some,
        view_encoding(v2) is Some,
        view_encoding(v1) == view_encoding(v2),
    ensures
        v1 == v2,
{
    lemma_view_encoding_len(v1);
    lemma_view_encoding_len(v2);
    let c1 = canvas_encoding(v1.0).unwrap();
    let c2 = canvas_encoding(v2.0).unwrap();
    let a = view_encoding(v1).unwrap();
    assert(c1 =~= a.take(64));
    assert(c2 =~= a.take(64));
    assert(viewer_encoding(v1.1) =~= a.skip(64));
    assert(viewer_encoding(v2.1) =~= a.skip(64));
    lemma_canvas_encoding_injective(v1.0, v2.0);
    lemma_viewer_key_roundtrip(v1.1, Seq::empty());
    lemma_viewer_key_roundtrip(v2.1, Seq::empty());
    assert(viewer_encoding(v1.1) + Seq::<u8>::empty() =~= viewer_encoding(v1.1));
    assert(viewer_encoding(v2.1) + Seq::<u8>::empty() =~= viewer_encoding(v2.1));
}

/// Splits two store keys of equal views' lengths into their parts.
proof fn lemma_split_entry_keys(a1: Seq<u8>, b1: Seq<u8>, a2: Seq<u8>, b2: Seq<u8>)
    requires
        a1.len() == a2.len(),
        a1 + b1 == a2 + b2,
    ensures
        a1 == a2,
        b1 == b2,
{
    assert(a1 =~= (a1 + b1).take(a1.len() as int));
    assert(a2 =~= (a2 + b2).take(a1.len() as int));
    assert(b1 =~= (a1 + b1).skip(a1.len() as int));
    assert(b2 =~= (a2 + b2).skip(a1.len() as int));
}

/// Resources with distinct ids, or under distinct views, are stored under
/// distinct keys: writing one never overwrites another.
pub proof fn lemma_entry_keys_distinct(v1: (Seq<char>, u64), k1: u64, v2: (Seq<char>, u64), k2: u64)
    requires
        entry_key_bytes::<Id>(v1, k1) is Some,
        entry_key_bytes::<Id>(v1, k1) == entry_key_bytes::<Id>(v2, k2),
    ensures
        v1 == v2,
        k1 == k2,
{
    lemma_view_encoding_len(v1);
    lemma_view_encoding_len(v2);
    lemma_split_entry_keys(
        view_encoding(v1).unwrap(),
        be_bytes_u64(k1),
        view_encoding(v2).unwrap(),
        be_bytes_u64(k2),
    );
    lemma_view_encoding_injective(v1, v2);
    lemma_id_key_roundtrip(k1, Seq::empty());
    lemma_id_key_roundtrip(k2, Seq::empty());
    assert(be_bytes_u64(k1) + Seq::<u8>::empty() =~= be_bytes_u64(k1));
    assert(be_bytes_u64(k2) + Seq::<u8>::empty() =~= be_bytes_u64(k2));
}

/// Submissions with distinct keys, or under distinct views, are stored under
/// distinct keys.
pub proof fn lemma_submission_entry_keys_distinct(
    v1: (Seq<char>, u64),
    k1: (u64, u64, u32),
    v2: (Seq<char>, u64),
    k2: (u64, u64, u32),
)
    requires
        entry_key_bytes::<SubmissionKey>(v1, k1) is Some,
        entry_key_bytes::<SubmissionKey>(v1, k1) == entry_key_bytes::<SubmissionKey>(v2, k2),
    ensures
        v1 == v2,
        k1 == k2,
{
    lemma_view_encoding_len(v1);
    lemma_view_encoding_len(v2);
    lemma_split_entry_keys(
        view_encoding(v1).unwrap(),
        submission_encoding(k1),
        view_encoding(v2).unwrap(),
        submission_encoding(k2),
    );
    lemma_view_encoding_injective(v1, v2);
    lemma_submission_key_roundtrip(k1, Seq::empty());
    lemma_submission_key_roundtrip(k2, Seq::empty());
    assert(submission_encoding(k1) + Seq::<u8>::empty() =~= submission_encoding(k1));
    assert(submission_encoding(k2) + Seq::<u8>::empty() =~= submission_encoding(k2));
}

/// Reading the resource key of an entry gives back the id it was stored
/// under.
pub proof fn lemma_resource_key_roundtrip(v: (Seq<char>, u64), k: u64)
    requires
        entry_key_bytes::<Id>(v, k) is Some,
    ensures
        <Id as Key>::decoding(after_view(entry_key_bytes::<Id>(v, k).unwrap())) == Some(k),
{
    lemma_view_encoding_len(v);
    let a = view_encoding(v).unwrap();
    assert(after_view(a + be_bytes_u64(k)) =~= be_bytes_u64(k) + Seq::<u8>::empty());
    lemma_id_key_roundtrip(k, Seq::empty());
}

/// Reading the resource key of a submission's entry gives back its key.
pub proof fn lemma_submission_resource_key_roundtrip(v: (Seq<char>, u64), k: (u64, u64, u32))
    requires
        entry_key_bytes::<SubmissionKey>(v, k) is Some,
    ensures
        <SubmissionKey as Key>::decoding(
            after_view(entry_key_bytes::<SubmissionKey>(v, k).unwrap()),
        ) == Some(k),
{
    lemma_view_encoding_len(v);
    let a = view_encoding(v).unwrap();
    assert(after_view(a + submission_encoding(k)) =~= submission_encoding(k) + Seq::<u8>::empty());
    lemma_submission_key_roundtrip(k, Seq::empty());
}

/// A store key lies under at most one view: the keys of a view never start
/// with another view's key, so reading a view's entries by its prefix never
/// reaches another view's.
pub proof fn lemma_views_separate(v1: (Seq<char>, u64), v2: (Seq<char>, u64), k: Seq<u8>)
    requires
        view_encoding(v1) is Some,
        view_encoding(v2) is Some,
        has_prefix(k, view_encoding(v1).unwrap()),
        has_prefix(k, view_encoding(v2).unwrap()),
    ensures
        v1 == v2,
{
    lemma_view_encoding_len(v1);
    lemma_view_encoding_len(v2);
    lemma_view_encoding_injective(v1, v2);
}

} // verus!
