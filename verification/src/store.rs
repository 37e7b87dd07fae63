//! Byte-keyed stores of cached resources, and the in-memory store that a
//! browser client keeps, backed by a `crossbeam` skip list.
use crate::bytes::{
    append_bytes, be_bytes_u32, bytes_to_vec, increment_key, incremented, lemma_u32_be_roundtrip, lex_lt,
    u32_from_be, u32_from_be_bytes, u32_to_be_bytes,
};
use crate::key::Error;
use crossbeam_skiplist::SkipMap;
use std::ops::Bound;
use vstd::prelude::*;

verus! {

/// A concurrent ordered map of `crossbeam_skiplist`.
#[verifier::external_type_specification]
#[verifier::external_body]
#[verifier::reject_recursive_types(K)]
#[verifier::reject_recursive_types(V)]
pub struct ExSkipMap<K, V>(SkipMap<K, V>);

/// The key-value pairs that a skip list of byte strings holds.
pub uninterp spec fn skipmap_entries(m: SkipMap<Vec<u8>, Vec<u8>>) -> Map<Seq<u8>, Seq<u8>>;

/// The views of a list of key-value pairs.
pub open spec fn pairs_view(v: Seq<(Vec<u8>, Vec<u8>)>) -> Seq<(Seq<u8>, Seq<u8>)> {
    v.map_values(|p: (Vec<u8>, Vec<u8>)| (p.0@, p.1@))
}

/// Whether a key lies in the half-open range `[start, end)`.
pub open spec fn in_range(k: Seq<u8>, start: Seq<u8>, end: Seq<u8>) -> bool {
    !lex_lt(k, start) && lex_lt(k, end)
}

/// Whether `es` lists, in ascending key order, exactly the pairs of `m`
/// whose keys `within` accepts.
pub open spec fn lists_entries(
    es: Seq<(Seq<u8>, Seq<u8>)>,
    m: Map<Seq<u8>, Seq<u8>>,
    within: spec_fn(Seq<u8>) -> bool,
) -> bool {
    &&& forall|i: int, j: int| 0 <= i < j < es.len() ==> lex_lt(es[i].0, es[j].0)
    &&& forall|i: int|
        0 <= i < es.len() ==> within(es[i].0) && m.contains_key(es[i].0) && m[es[i].0]
            == es[i].1
    &&& forall|k: Seq<u8>|
        m.contains_key(k) && within(k) ==> exists|i: int| 0 <= i < es.len() && es[i].0 == k
}

/// `SkipMap::new`: an empty map.
#[verifier::external_body]
fn skipmap_new() -> (created: SkipMap<Vec<u8>, Vec<u8>>)
    ensures
        skipmap_entries(created) =~= Map::empty(),
{
    SkipMap::new()
}

/// `SkipMap::get`: the value stored under `key`, copied out of its entry.
#[verifier::external_body]
fn skipmap_get(m: &SkipMap<Vec<u8>, Vec<u8>>, key: &[u8]) -> (r: Option<Vec<u8>>)
    ensures
        r is Some <==> skipmap_entries(*m).contains_key(key@),
        r matches Some(v) ==> v@ == skipmap_entries(*m)[key@],
{
    m.get(key).map(|e| e.value().clone())
}

/// `SkipMap::insert`: stores `value` under `key`, replacing what was there.
#[verifier::external_body]
fn skipmap_insert(m: &mut SkipMap<Vec<u8>, Vec<u8>>, key: Vec<u8>, value: Vec<u8>)
    ensures
        skipmap_entries(*final(m)) == skipmap_entries(*old(m)).insert(key@, value@),
{
    m.insert(key, value);
}

/// `SkipMap::get_or_insert`: stores `value` under `key` unless a value is
/// there already.
#[verifier::external_body]
fn skipmap_get_or_insert(m: &mut SkipMap<Vec<u8>, Vec<u8>>, key: Vec<u8>, value: Vec<u8>)
    ensures
        skipmap_entries(*old(m)).contains_key(key@) ==> skipmap_entries(*final(m))
            == skipmap_entries(*old(m)),
        !skipmap_entries(*old(m)).contains_key(key@) ==> skipmap_entries(*final(m))
            == skipmap_entries(*old(m)).insert(key@, value@),
{
    m.get_or_insert(key, value);
}

/// `SkipMap::remove`: removes what is stored under `key`.
#[verifier::external_body]
fn skipmap_remove(m: &mut SkipMap<Vec<u8>, Vec<u8>>, key: &[u8])
    ensures
        skipmap_entries(*final(m)) == skipmap_entries(*old(m)).remove(key@),
{
    m.remove(key);
}

/// `SkipMap::range` over `[start, end)`, each entry copied out; the map
/// yields its entries in ascending key order.
#[verifier::external_body]
fn skipmap_range(m: &SkipMap<Vec<u8>, Vec<u8>>, start: &[u8], end: &[u8]) -> (r: Vec<
    (Vec<u8>, Vec<u8>),
>)
    ensures
        lists_entries(
            pairs_view(r@),
            skipmap_entries(*m),
            |k: Seq<u8>| in_range(k, start@, end@),
        ),
{
    m.range::<[u8], _>((Bound::Included(start), Bound::Excluded(end))).map(
        |e| (e.key().clone(), e.value().clone()),
    ).collect()
}

/// `SkipMap::range` over the keys from `start` on, each entry copied out; the
/// map yields its entries in ascending key order.
#[verifier::external_body]
fn skipmap_range_from(m: &SkipMap<Vec<u8>, Vec<u8>>, start: &[u8]) -> (r: Vec<(Vec<u8>, Vec<u8>)>)
    ensures
        lists_entries(pairs_view(r@), skipmap_entries(*m), |k: Seq<u8>| !lex_lt(k, start@)),
{
    m.range::<[u8], _>((Bound::Included(start), Bound::Unbounded)).map(
        |e| (e.key().clone(), e.value().clone()),
    ).collect()
}

/// `SkipMap::iter`, each entry copied out, in ascending key order.
#[verifier::external_body]
fn skipmap_iter(m: &SkipMap<Vec<u8>, Vec<u8>>) -> (r: Vec<(Vec<u8>, Vec<u8>)>)
    ensures
        lists_entries(pairs_view(r@), skipmap_entries(*m), |k: Seq<u8>| true),
{
    m.iter().map(|e| (e.key().clone(), e.value().clone())).collect()
}

/// The pairs of `m` whose keys lie in `[start, end)`.
pub open spec fn keys_in_range(m: Map<Seq<u8>, Seq<u8>>, start: Seq<u8>, end: Seq<u8>) -> Set<
    Seq<u8>,
> {
    m.dom().filter(|k: Seq<u8>| in_range(k, start, end))
}

/// A byte-keyed store of cached resources.
pub trait Store: Sized {
    /// The key-value pairs the store holds.
    spec fn entries(&self) -> Map<Seq<u8>, Seq<u8>>;

    /// Whether the store's operations cannot fail (an in-memory store), so
    /// that every operation built from them succeeds too.
    spec fn infallible(&self) -> bool;

    /// The errors that the operations changing the store have reported,
    /// oldest first.
    spec fn failures(&self) -> Seq<Error>;

    /// The value stored under `key`.
    fn get(&self, key: &[u8]) -> (r: Result<Option<Vec<u8>>, Error>)
        ensures
            self.infallible() ==> r is Ok,
            r matches Ok(o) ==> (o is Some <==> self.entries().contains_key(key@)),
            r matches Ok(Some(v)) ==> v@ == self.entries()[key@],
    ;

    /// Stores `value` under `key`, replacing what was there.
    fn insert(&mut self, key: &[u8], value: Vec<u8>) -> (r: Result<Option<Vec<u8>>, Error>)
        ensures
            old(self).infallible() ==> r is Ok,
            final(self).infallible() == old(self).infallible(),
            r is Ok ==> final(self).failures() == old(self).failures(),
            r matches Err(e) ==> final(self).failures() == old(self).failures().push(e),
            r is Ok ==> final(self).entries() == old(self).entries().insert(key@, value@),
            r is Err ==> final(self).entries() == old(self).entries(),
    ;

    /// Removes what is stored under `key`.
    fn remove(&mut self, key: &[u8]) -> (r: Result<Option<Vec<u8>>, Error>)
        ensures
            old(self).infallible() ==> r is Ok,
            final(self).infallible() == old(self).infallible(),
            r is Ok ==> final(self).failures() == old(self).failures(),
            r matches Err(e) ==> final(self).failures() == old(self).failures().push(e),
            r is Ok ==> final(self).entries() == old(self).entries().remove(key@),
            r is Err ==> final(self).entries() == old(self).entries(),
    ;

    /// The pairs whose keys lie in `[start, end)`, in ascending key order.
    fn scan_range(&self, start: &[u8], end: &[u8]) -> (r: Result<Vec<(Vec<u8>, Vec<u8>)>, Error>)
        ensures
            self.infallible() ==> r is Ok,
            r matches Ok(v) ==> lists_entries(
                pairs_view(v@),
                self.entries(),
                |k: Seq<u8>| in_range(k, start@, end@),
            ),
    ;

    /// The pairs whose keys come from `start` on, in ascending key order.
    fn scan_from(&self, start: &[u8]) -> (r: Result<Vec<(Vec<u8>, Vec<u8>)>, Error>)
        ensures
            self.infallible() ==> r is Ok,
            r matches Ok(v) ==> lists_entries(
                pairs_view(v@),
                self.entries(),
                |k: Seq<u8>| !lex_lt(k, start@),
            ),
    ;

    /// Removes every pair whose key lies in `[start, end)`, one at a time,
    /// and succeeds where the scan and every removal succeed. Where a removal
    /// fails, its error is returned (and logged among the failures), the
    /// pairs removed before it stay removed and the rest stay; where the scan
    /// fails, its error is returned and nothing changes.
    fn remove_range(&mut self, start: &[u8], end: &[u8]) -> (r: Result<(), Error>)
        ensures
            old(self).infallible() ==> r is Ok,
            final(self).infallible() == old(self).infallible(),
            r is Ok ==> final(self).failures() == old(self).failures(),
            r matches Err(e) ==> final(self).failures() == old(self).failures().push(e) || (
            final(self).failures() == old(self).failures() && final(self).entries() == old(
                self,
            ).entries()),
            r is Ok ==> final(self).entries() == old(self).entries().remove_keys(
                keys_in_range(old(self).entries(), start@, end@),
            ),
            r is Err ==> removed_partly(
                final(self).entries(),
                old(self).entries(),
                keys_in_range(old(self).entries(), start@, end@),
            ),
    {
        let pairs = self.scan_range(start, end)?;
        let ghost m0 = self.entries();
        let r = self.remove_listed(&pairs, Ghost(|k: Seq<u8>| in_range(k, start@, end@)));
        assert(keys_in_range(m0, start@, end@) =~= m0.dom().filter(
            |k: Seq<u8>| in_range(k, start@, end@),
        ));
        r
    }

    /// Removes the listed pairs, one at a time, stopping at the first removal
    /// that fails; `within` accepts the keys that the list holds.
    fn remove_listed(
        &mut self,
        pairs: &Vec<(Vec<u8>, Vec<u8>)>,
        Ghost(within): Ghost<spec_fn(Seq<u8>) -> bool>,
    ) -> (r: Result<(), Error>)
        requires
            lists_entries(pairs_view(pairs@), old(self).entries(), within),
        ensures
            old(self).infallible() ==> r is Ok,
            final(self).infallible() == old(self).infallible(),
            r is Ok ==> final(self).failures() == old(self).failures(),
            r matches Err(e) ==> final(self).failures() == old(self).failures().push(e),
            r is Ok ==> final(self).entries() == old(self).entries().remove_keys(
                old(self).entries().dom().filter(within),
            ),
            r is Err ==> removed_partly(
                final(self).entries(),
                old(self).entries(),
                old(self).entries().dom().filter(within),
            ),
    {
        let ghost es = pairs_view(pairs@);
        let ghost m0 = self.entries();
        let mut i: usize = 0;
        while i < pairs.len()
            invariant
                i <= pairs.len(),
                es == pairs_view(pairs@),
                m0 == old(self).entries(),
                self.infallible() == old(self).infallible(),
                self.failures() == old(self).failures(),
                lists_entries(es, m0, within),
                self.entries() == m0.remove_keys(
                    Set::new(|k: Seq<u8>| exists|j: int| 0 <= j < i && es[j].0 == k),
                ),
            decreases pairs.len() - i,
        {
            let ghost before = self.entries();
            match self.remove(pairs[i].0.as_slice()) {
                Ok(_) => {},
                Err(e) => {
                    proof {
                        assert forall|k: Seq<u8>|
                            m0.contains_key(k) && !m0.dom().filter(within).contains(
                                k,
                            ) implies #[trigger] self.entries().contains_key(k) by {
                            if exists|j: int| 0 <= j < i && es[j].0 == k {
                                let j = choose|j: int| 0 <= j < i && es[j].0 == k;
                                assert(within(es[j].0));
                            }
                        }
                    }
                    return Err(e);
                },
            }
            i = i + 1;
            proof {
                assert(es[i - 1].0 == pairs@[i - 1].0@);
                assert(self.entries() =~= m0.remove_keys(
                    Set::new(|k: Seq<u8>| exists|j: int| 0 <= j < i && es[j].0 == k),
                )) by {
                    assert forall|k: Seq<u8>|
                        #![trigger self.entries().contains_key(k)]
                        self.entries().contains_key(k) == (m0.contains_key(k) && !(exists|j: int|
                            0 <= j < i && es[j].0 == k)) by {
                        if exists|j: int| 0 <= j < i && es[j].0 == k {
                            let j = choose|j: int| 0 <= j < i && es[j].0 == k;
                            if j < i - 1 {
                                assert(!before.contains_key(k));
                            }
                        }
                    }
                }
            }
        }
        proof {
            assert(Set::new(|k: Seq<u8>| exists|j: int| 0 <= j < pairs.len() && es[j].0 == k)
                .intersect(m0.dom()) =~= m0.dom().filter(within)) by {
                assert forall|k: Seq<u8>| m0.dom().filter(within).contains(k) implies exists|j: int|
                    0 <= j < pairs.len() && es[j].0 == k by {
                    assert(m0.contains_key(k) && within(k));
                }
            }
            assert(self.entries() =~= m0.remove_keys(m0.dom().filter(within)));
        }
        Ok(())
    }

    /// The pairs whose keys start with `prefix`, in ascending key order.
    fn scan_prefix(&self, prefix: &[u8]) -> (r: Result<Vec<(Vec<u8>, Vec<u8>)>, Error>)
        ensures
            self.infallible() ==> r is Ok,
            r matches Ok(v) ==> lists_entries(pairs_view(v@), self.entries(), starts_with(prefix@)),
    {
        proof {
            assert forall|k: Seq<u8>| #[trigger] starts_with(prefix@)(k) == (!lex_lt(k, prefix@) && (
            prefix_end(prefix@) matches Some(e) ==> lex_lt(k, e))) by {
                lemma_prefix_bounds(prefix@, k);
            }
        }
        match prefix_end_of(prefix) {
            Some(end) => {
                let r = self.scan_range(prefix, end.as_slice());
                proof {
                    if r is Ok {
                        lemma_lists_same(
                            pairs_view(r->Ok_0@),
                            self.entries(),
                            |k: Seq<u8>| in_range(k, prefix@, end@),
                            starts_with(prefix@),
                        );
                    }
                }
                r
            },
            None => {
                let r = self.scan_from(prefix);
                proof {
                    if r is Ok {
                        lemma_lists_same(
                            pairs_view(r->Ok_0@),
                            self.entries(),
                            |k: Seq<u8>| !lex_lt(k, prefix@),
                            starts_with(prefix@),
                        );
                    }
                }
                r
            },
        }
    }

    /// Removes every pair whose key starts with `prefix`, as `remove_range`
    /// does: where a removal fails its error is returned and the pairs
    /// removed before it stay removed; where the scan fails, nothing changes.
    fn remove_prefix(&mut self, prefix: &[u8]) -> (r: Result<(), Error>)
        ensures
            old(self).infallible() ==> r is Ok,
            final(self).infallible() == old(self).infallible(),
            r is Ok ==> final(self).failures() == old(self).failures(),
            r matches Err(e) ==> final(self).failures() == old(self).failures().push(e) || (
            final(self).failures() == old(self).failures() && final(self).entries() == old(
                self,
            ).entries()),
            r is Ok ==> final(self).entries() == old(self).entries().remove_keys(
                old(self).entries().dom().filter(starts_with(prefix@)),
            ),
            r is Err ==> removed_partly(
                final(self).entries(),
                old(self).entries(),
                old(self).entries().dom().filter(starts_with(prefix@)),
            ),
    {
        let pairs = self.scan_prefix(prefix)?;
        self.remove_listed(&pairs, Ghost(starts_with(prefix@)))
    }
}

/// The keys that start with `p`.
pub open spec fn starts_with(p: Seq<u8>) -> spec_fn(Seq<u8>) -> bool {
    |k: Seq<u8>| has_prefix(k, p)
}

/// Whether `after` keeps some of the pairs of `before` that lie in `gone`
/// and all of the others, unchanged.
pub open spec fn removed_partly(
    after: Map<Seq<u8>, Seq<u8>>,
    before: Map<Seq<u8>, Seq<u8>>,
    gone: Set<Seq<u8>>,
) -> bool {
    &&& forall|k: Seq<u8>| #[trigger]
        after.contains_key(k) ==> before.contains_key(k) && after[k] == before[k]
    &&& forall|k: Seq<u8>| #[trigger]
        before.contains_key(k) && !gone.contains(k) ==> after.contains_key(k)
}

/// A listing of the pairs that one predicate accepts lists those that an
/// equal predicate accepts.
proof fn lemma_lists_same(
    es: Seq<(Seq<u8>, Seq<u8>)>,
    m: Map<Seq<u8>, Seq<u8>>,
    f: spec_fn(Seq<u8>) -> bool,
    g: spec_fn(Seq<u8>) -> bool,
)
    requires
        lists_entries(es, m, f),
        forall|k: Seq<u8>| #[trigger] g(k) == f(k),
    ensures
        lists_entries(es, m, g),
{
    assert forall|k: Seq<u8>| m.contains_key(k) && g(k) implies exists|i: int|
        0 <= i < es.len() && es[i].0 == k by {
        assert(f(k));
    }
}

/// The stores a browser client keeps, one per kind of resource.
#[derive(Debug, Clone, Copy, PartialEq, Eq, Structural)]
pub enum StoreName {
    Course,
    Assignment,
    Submission,
}

impl StoreName {
    /// The name of the store in the browser's database.
    pub fn as_str(&self) -> (s: &'static str)
        ensures
            s@ == match self {
                StoreName::Course => "course"@,
                StoreName::Assignment => "assignment"@,
                StoreName::Submission => "submission"@,
            },
    {
        match self {
            StoreName::Course => "course",
            StoreName::Assignment => "assignment",
            StoreName::Submission => "submission",
        }
    }
}

/// An in-memory store of one kind of resource, kept in a skip list.
#[derive(Debug)]
pub struct GlazeStore {
    name: StoreName,
    resources: SkipMap<Vec<u8>, Vec<u8>>,
}

impl GlazeStore {
    /// An empty store.
    pub fn new(name: StoreName) -> (s: GlazeStore)
        ensures
            s.store_name() == name,
            s.entries() == Map::<Seq<u8>, Seq<u8>>::empty(),
    {
        GlazeStore { name, resources: skipmap_new() }
    }

    /// The kind of resource the store holds.
    pub closed spec fn store_name(&self) -> StoreName {
        self.name
    }

    /// The kind of resource the store holds.
    pub fn name(&self) -> (n: StoreName)
        ensures
            n == self.store_name(),
    {
        self.name
    }

    /// Every pair of the store, in ascending key order.
    pub fn pairs(&self) -> (r: Vec<(Vec<u8>, Vec<u8>)>)
        ensures
            lists_entries(pairs_view(r@), self.entries(), |k: Seq<u8>| true),
    {
        skipmap_iter(&self.resources)
    }
}

impl Store for GlazeStore {
    closed spec fn entries(&self) -> Map<Seq<u8>, Seq<u8>> {
        skipmap_entries(self.resources)
    }

    /// An in-memory store never fails.
    open spec fn failures(&self) -> Seq<Error> {
        Seq::empty()
    }

    open spec fn infallible(&self) -> bool {
        true
    }

    fn get(&self, key: &[u8]) -> (r: Result<Option<Vec<u8>>, Error>)
        ensures
            r is Ok,
    {
        Ok(skipmap_get(&self.resources, key))
    }

    /// The skip list does not hand back the value it replaces, so this
    /// always answers `Ok(None)`.
    fn insert(&mut self, key: &[u8], value: Vec<u8>) -> (r: Result<Option<Vec<u8>>, Error>)
        ensures
            r == Ok::<Option<Vec<u8>>, Error>(None),
    {
        skipmap_insert(&mut self.resources, bytes_to_vec(key), value);
        Ok(None)
    }

    /// The skip list does not hand back the value it removes, so this
    /// always answers `Ok(None)`.
    fn remove(&mut self, key: &[u8]) -> (r: Result<Option<Vec<u8>>, Error>)
        ensures
            r == Ok::<Option<Vec<u8>>, Error>(None),
    {
        skipmap_remove(&mut self.resources, key);
        Ok(None)
    }

    fn scan_range(&self, start: &[u8], end: &[u8]) -> (r: Result<Vec<(Vec<u8>, Vec<u8>)>, Error>)
        ensures
            r is Ok,
    {
        Ok(skipmap_range(&self.resources, start, end))
    }

    fn scan_from(&self, start: &[u8]) -> (r: Result<Vec<(Vec<u8>, Vec<u8>)>, Error>)
        ensures
            r is Ok,
    {
        Ok(skipmap_range_from(&self.resources, start))
    }

    fn remove_range(&mut self, start: &[u8], end: &[u8]) -> (r: Result<(), Error>)
        ensures
            r is Ok,
    {
        let pairs = skipmap_range(&self.resources, start, end);
        let ghost es = pairs_view(pairs@);
        let ghost m0 = self.entries();
        let mut i: usize = 0;
        while i < pairs.len()
            invariant
                i <= pairs.len(),
                es == pairs_view(pairs@),
                m0 == old(self).entries(),
                lists_entries(es, m0, |k: Seq<u8>| in_range(k, start@, end@)),
                self.entries() == m0.remove_keys(
                    Set::new(|k: Seq<u8>| exists|j: int| 0 <= j < i && es[j].0 == k),
                ),
            decreases pairs.len() - i,
        {
            let ghost before = self.entries();
            skipmap_remove(&mut self.resources, pairs[i].0.as_slice());
            i = i + 1;
            proof {
                assert(es[i - 1].0 == pairs@[i - 1].0@);
                assert(self.entries() =~= m0.remove_keys(
                    Set::new(|k: Seq<u8>| exists|j: int| 0 <= j < i && es[j].0 == k),
                )) by {
                    assert forall|k: Seq<u8>|
                        #![trigger self.entries().contains_key(k)]
                        self.entries().contains_key(k) == (m0.contains_key(k) && !(exists|j: int|
                            0 <= j < i && es[j].0 == k)) by {
                        if exists|j: int| 0 <= j < i && es[j].0 == k {
                            let j = choose|j: int| 0 <= j < i && es[j].0 == k;
                            if j < i - 1 {
                                assert(!before.contains_key(k));
                            }
                        }
                    }
                }
            }
        }
        proof {
            assert(Set::new(|k: Seq<u8>| exists|j: int| 0 <= j < pairs.len() && es[j].0 == k)
                .intersect(m0.dom()) =~= keys_in_range(m0, start@, end@)) by {
                assert forall|k: Seq<u8>|
                    keys_in_range(m0, start@, end@).contains(k) implies exists|j: int|
                    0 <= j < pairs.len() && es[j].0 == k by {
                    assert(m0.contains_key(k) && in_range(k, start@, end@));
                }
            }
            assert(self.entries() =~= m0.remove_keys(keys_in_range(m0, start@, end@)));
        }
        Ok(())
    }
}

/// The stored form of one pair: the key's length and the value's length as
/// big-endian `u32`s, then the key and the value.
pub open spec fn pair_encoding(k: Seq<u8>, v: Seq<u8>) -> Seq<u8> {
    be_bytes_u32(k.len() as u32) + be_bytes_u32(v.len() as u32) + k + v
}

/// The stored form of a list of pairs: their encodings one after another.
pub open spec fn pairs_encoding(es: Seq<(Seq<u8>, Seq<u8>)>) -> Seq<u8>
    decreases es.len(),
{
    if es.len() == 0 {
        Seq::empty()
    } else {
        pairs_encoding(es.drop_last()) + pair_encoding(es.last().0, es.last().1)
    }
}

/// The smaller of two integers.
pub open spec fn min_int(a: int, b: int) -> int {
    if a < b {
        a
    } else {
        b
    }
}

/// The pairs read from stored bytes. A pair needs both lengths; a key or
/// value cut short by the end of the bytes is read as far as it goes.
pub open spec fn pairs_decoding(b: Seq<u8>) -> Seq<(Seq<u8>, Seq<u8>)>
    decreases b.len(),
{
    if b.len() < 8 {
        Seq::empty()
    } else {
        let r = b.skip(8);
        let key = r.take(min_int(u32_from_be(b) as int, r.len() as int));
        let r2 = r.skip(key.len() as int);
        let value = r2.take(min_int(u32_from_be(b.skip(4)) as int, r2.len() as int));
        seq![(key, value)] + pairs_decoding(r2.skip(value.len() as int))
    }
}

/// The map that inserting `es` in order builds when the first value stored
/// under a key stays.
pub open spec fn first_wins_map(es: Seq<(Seq<u8>, Seq<u8>)>) -> Map<Seq<u8>, Seq<u8>>
    decreases es.len(),
{
    if es.len() == 0 {
        Map::empty()
    } else {
        let m = first_wins_map(es.drop_last());
        if m.contains_key(es.last().0) {
            m
        } else {
            m.insert(es.last().0, es.last().1)
        }
    }
}

impl GlazeStore {
    /// The stored form of the store: each pair in ascending key order, as
    /// `pair_encoding` lays it out.
    pub fn to_bytes(&self) -> (r: Vec<u8>)
        ensures
            exists|es: Seq<(Seq<u8>, Seq<u8>)>|
                lists_entries(es, self.entries(), |k: Seq<u8>| true) && r@ == pairs_encoding(
                    es,
                ),
    {
        let pairs = skipmap_iter(&self.resources);
        let ghost es = pairs_view(pairs@);
        let mut out: Vec<u8> = Vec::new();
        let mut i: usize = 0;
        while i < pairs.len()
            invariant
                i <= pairs.len(),
                es == pairs_view(pairs@),
                out@ == pairs_encoding(es.take(i as int)),
            decreases pairs.len() - i,
        {
            let k = pairs[i].0.as_slice();
            let v = pairs[i].1.as_slice();
            let kl = u32_to_be_bytes(k.len() as u32);
            let vl = u32_to_be_bytes(v.len() as u32);
            let ghost before = out@;
            append_bytes(&mut out, &kl, 0, 4);
            append_bytes(&mut out, &vl, 0, 4);
            append_bytes(&mut out, k, 0, k.len());
            append_bytes(&mut out, v, 0, v.len());
            i = i + 1;
            proof {
                assert(es.take(i as int).drop_last() =~= es.take(i - 1));
                assert(es.take(i as int).last() == (k@, v@));
                assert(kl@.subrange(0, 4) =~= kl@);
                assert(vl@.subrange(0, 4) =~= vl@);
                assert(k@.subrange(0, k@.len() as int) =~= k@);
                assert(v@.subrange(0, v@.len() as int) =~= v@);
                assert(out@ =~= before + pair_encoding(k@, v@));
            }
        }
        assert(es.take(pairs.len() as int) =~= es);
        out
    }

    /// A store holding what `bytes` encode; where a key occurs twice its
    /// first value stays.
    pub fn from_bytes(name: StoreName, bytes: &[u8]) -> (s: GlazeStore)
        ensures
            s.store_name() == name,
            s.entries() == first_wins_map(pairs_decoding(bytes@)),
    {
        let mut resources = skipmap_new();
        let n = bytes.len();
        let mut pos: usize = 0;
        let ghost mut done: Seq<(Seq<u8>, Seq<u8>)> = Seq::empty();
        assert(bytes@.skip(0) =~= bytes@);
        while n - pos >= 8
            invariant
                pos <= n,
                n == bytes@.len(),
                pairs_decoding(bytes@) == done + pairs_decoding(bytes@.skip(pos as int)),
                skipmap_entries(resources) == first_wins_map(done),
            decreases n - pos,
        {
            let ghost b = bytes@.skip(pos as int);
            let kl = u32_from_be_bytes([bytes[pos], bytes[pos + 1], bytes[pos + 2], bytes[pos + 3]]);
            let vl = u32_from_be_bytes(
                [bytes[pos + 4], bytes[pos + 5], bytes[pos + 6], bytes[pos + 7]],
            );
            proof {
                assert(seq![bytes@[pos as int], bytes@[pos + 1], bytes@[pos + 2], bytes@[pos + 3]][0] == b[0]);
                assert(u32_from_be(b) == kl);
                assert(u32_from_be(b.skip(4)) == vl);
            }
            pos = pos + 8;
            let klen: usize = if (kl as usize) < n - pos {
                kl as usize
            } else {
                n - pos
            };
            let mut key: Vec<u8> = Vec::new();
            append_bytes(&mut key, bytes, pos, pos + klen);
            pos = pos + klen;
            let vlen: usize = if (vl as usize) < n - pos {
                vl as usize
            } else {
                n - pos
            };
            let mut value: Vec<u8> = Vec::new();
            append_bytes(&mut value, bytes, pos, pos + vlen);
            pos = pos + vlen;
            proof {
                let r = b.skip(8);
                let k = r.take(min_int(kl as int, r.len() as int));
                let r2 = r.skip(k.len() as int);
                let v = r2.take(min_int(vl as int, r2.len() as int));
                assert(k =~= key@);
                assert(v =~= value@);
                assert(r2.skip(v.len() as int) =~= bytes@.skip(pos as int));
                assert(pairs_decoding(b) == seq![(key@, value@)] + pairs_decoding(
                    bytes@.skip(pos as int),
                ));
                let done2 = done.push((key@, value@));
                assert(done2.drop_last() =~= done);
                assert(done + (seq![(key@, value@)] + pairs_decoding(bytes@.skip(pos as int)))
                    =~= done2 + pairs_decoding(bytes@.skip(pos as int)));
                done = done2;
            }
            skipmap_get_or_insert(&mut resources, key, value);
        }
        proof {
            assert(pairs_decoding(bytes@.skip(pos as int)) =~= Seq::empty());
            assert(done + Seq::empty() =~= done);
        }
        GlazeStore { name, resources }
    }
}

/// The encoding of a non-empty list starts with the encoding of its first
/// pair.
pub proof fn lemma_pairs_encoding_first(es: Seq<(Seq<u8>, Seq<u8>)>)
    requires
        es.len() > 0,
    ensures
        pairs_encoding(es) == pair_encoding(es[0].0, es[0].1) + pairs_encoding(es.drop_first()),
    decreases es.len(),
{
    if es.len() == 1 {
        assert(es.drop_last() =~= Seq::<(Seq<u8>, Seq<u8>)>::empty());
        assert(es.drop_first() =~= Seq::<(Seq<u8>, Seq<u8>)>::empty());
        assert(es.last() == es[0]);
        assert(pairs_encoding(es.drop_last()) == Seq::<u8>::empty());
        assert(pairs_encoding(es) =~= pair_encoding(es[0].0, es[0].1) + Seq::<u8>::empty());
    } else {
        lemma_pairs_encoding_first(es.drop_last());
        assert(es.drop_last().drop_first() =~= es.drop_first().drop_last());
        assert(es.drop_first().last() == es.last());
        assert(es.drop_last()[0] == es[0]);
        assert(pairs_encoding(es) =~= pair_encoding(es[0].0, es[0].1) + pairs_encoding(
            es.drop_first(),
        ));
    }
}

/// Reading a pair's encoding, whatever follows it, gives the pair first.
pub proof fn lemma_pair_decoding(k: Seq<u8>, v: Seq<u8>, rest: Seq<u8>)
    requires
        k.len() <= u32::MAX,
        v.len() <= u32::MAX,
    ensures
        pairs_decoding(pair_encoding(k, v) + rest) == seq![(k, v)] + pairs_decoding(rest),
{
    let b = pair_encoding(k, v) + rest;
    lemma_u32_be_roundtrip(k.len() as u32);
    lemma_u32_be_roundtrip(v.len() as u32);
    assert(u32_from_be(b) == u32_from_be(be_bytes_u32(k.len() as u32)));
    assert(u32_from_be(b.skip(4)) == u32_from_be(be_bytes_u32(v.len() as u32)));
    let r = b.skip(8);
    assert(r =~= k + v + rest);
    assert(r.take(k.len() as int) =~= k);
    assert(r.skip(k.len() as int) =~= v + rest);
    assert((v + rest).take(v.len() as int) =~= v);
    assert((v + rest).skip(v.len() as int) =~= rest);
}

/// Reading back the encoding of pairs whose keys and values fit the length
/// fields gives the pairs.
pub proof fn lemma_pairs_roundtrip(es: Seq<(Seq<u8>, Seq<u8>)>)
    requires
        forall|i: int|
            0 <= i < es.len() ==> es[i].0.len() <= u32::MAX && es[i].1.len() <= u32::MAX,
    ensures
        pairs_decoding(pairs_encoding(es)) == es,
    decreases es.len(),
{
    if es.len() == 0 {
        assert(pairs_decoding(Seq::empty()) =~= es);
    } else {
        lemma_pairs_encoding_first(es);
        let t = es.drop_first();
        assert forall|i: int| 0 <= i < t.len() implies t[i].0.len() <= u32::MAX && t[i].1.len()
            <= u32::MAX by {
            assert(t[i] == es[i + 1]);
        }
        lemma_pairs_roundtrip(t);
        lemma_pair_decoding(es[0].0, es[0].1, pairs_encoding(t));
        assert(seq![(es[0].0, es[0].1)] + t =~= es);
    }
}

/// With pairwise different keys, `first_wins_map` holds exactly the pairs.
pub proof fn lemma_first_wins_distinct(es: Seq<(Seq<u8>, Seq<u8>)>)
    requires
        forall|i: int, j: int| 0 <= i < j < es.len() ==> es[i].0 != es[j].0,
    ensures
        forall|k: Seq<u8>|
            first_wins_map(es).contains_key(k) <==> exists|i: int| 0 <= i < es.len() && es[i].0 == k,
        forall|i: int| 0 <= i < es.len() ==> first_wins_map(es)[es[i].0] == es[i].1,
    decreases es.len(),
{
    if es.len() > 0 {
        let t = es.drop_last();
        lemma_first_wins_distinct(t);
        assert forall|k: Seq<u8>|
            first_wins_map(es).contains_key(k) implies exists|i: int| 0 <= i < es.len() && es[i].0 == k by {
            if k != es.last().0 {
                assert(first_wins_map(t).contains_key(k));
                let i = choose|i: int| 0 <= i < t.len() && t[i].0 == k;
                assert(es[i] == t[i]);
            } else {
                assert(es[es.len() - 1].0 == k);
            }
        }
        assert forall|i: int| 0 <= i < es.len() implies first_wins_map(es)[es[i].0] == es[i].1 by {
            if i < es.len() - 1 {
                assert(es[i] == t[i]);
                assert(es[i].0 != es.last().0);
            } else {
                assert(!first_wins_map(t).contains_key(es.last().0)) by {
                    if first_wins_map(t).contains_key(es.last().0) {
                        let j = choose|j: int| 0 <= j < t.len() && t[j].0 == es.last().0;
                        assert(es[j] == t[j]);
                    }
                }
            }
        }
        assert forall|k: Seq<u8>|
            (exists|i: int| 0 <= i < es.len() && es[i].0 == k) implies first_wins_map(es).contains_key(k) by {
            let i = choose|i: int| 0 <= i < es.len() && es[i].0 == k;
            if i < es.len() - 1 {
                assert(es[i] == t[i]);
            }
        }
    }
}

/// A byte string never comes before itself.
pub proof fn lemma_lex_lt_irreflexive(a: Seq<u8>, b: Seq<u8>)
    requires
        lex_lt(a, b),
    ensures
        a != b,
{
    if a == b {
        if exists|i: int|
            #![trigger a[i], b[i]]
            0 <= i < a.len() && i < b.len() && (forall|j: int| 0 <= j < i ==> a[j] == b[j])
                && a[i] < b[i] {
            let i = choose|i: int|
                #![trigger a[i], b[i]]
                0 <= i < a.len() && i < b.len() && (forall|j: int| 0 <= j < i ==> a[j] == b[j])
                    && a[i] < b[i];
        }
    }
}

/// Writing a store out and loading the bytes back gives a store with the
/// same pairs, when every key and value is shorter than 4 GiB: `to_bytes`
/// lists the pairs as `es`, and `from_bytes` builds `first_wins_map` of what
/// it reads.
pub proof fn lemma_store_bytes_roundtrip(m: Map<Seq<u8>, Seq<u8>>, es: Seq<(Seq<u8>, Seq<u8>)>)
    requires
        lists_entries(es, m, |k: Seq<u8>| true),
        forall|i: int|
            0 <= i < es.len() ==> es[i].0.len() <= u32::MAX && es[i].1.len() <= u32::MAX,
    ensures
        first_wins_map(pairs_decoding(pairs_encoding(es))) == m,
{
    lemma_pairs_roundtrip(es);
    assert forall|i: int, j: int| 0 <= i < j < es.len() implies es[i].0 != es[j].0 by {
        lemma_lex_lt_irreflexive(es[i].0, es[j].0);
    }
    lemma_first_wins_distinct(es);
    let f = first_wins_map(es);
    assert forall|k: Seq<u8>| #[trigger] f.contains_key(k) == m.contains_key(k) by {
        if m.contains_key(k) {
            assert((|k: Seq<u8>| true)(k));
        }
    }
    assert forall|k: Seq<u8>| #[trigger] f.contains_key(k) implies f[k] == m[k] by {
        let i = choose|i: int| 0 <= i < es.len() && es[i].0 == k;
    }
    assert(f =~= m);
}

/// No two byte strings each come before the other.
proof fn lemma_lex_lt_asymmetric(a: Seq<u8>, b: Seq<u8>)
    requires
        lex_lt(a, b),
    ensures
        !lex_lt(b, a),
{
    if lex_lt(b, a) {
        if exists|i: int|
            #![trigger a[i], b[i]]
            0 <= i < a.len() && i < b.len() && (forall|j: int| 0 <= j < i ==> a[j] == b[j])
                && a[i] < b[i] {
            let i = choose|i: int|
                #![trigger a[i], b[i]]
                0 <= i < a.len() && i < b.len() && (forall|j: int| 0 <= j < i ==> a[j] == b[j])
                    && a[i] < b[i];
            if exists|i2: int|
                #![trigger b[i2], a[i2]]
                0 <= i2 < b.len() && i2 < a.len() && (forall|j: int| 0 <= j < i2 ==> b[j] == a[j])
                    && b[i2] < a[i2] {
                let i2 = choose|i2: int|
                    #![trigger b[i2], a[i2]]
                    0 <= i2 < b.len() && i2 < a.len() && (forall|j: int|
                        0 <= j < i2 ==> b[j] == a[j]) && b[i2] < a[i2];
                if i < i2 {
                    assert(b[i] == a[i]);
                } else if i2 < i {
                    assert(a[i2] == b[i2]);
                }
            } else {
                assert(b[i] == a[i]);
            }
        } else {
            if exists|i2: int|
                #![trigger b[i2], a[i2]]
                0 <= i2 < b.len() && i2 < a.len() && (forall|j: int| 0 <= j < i2 ==> b[j] == a[j])
                    && b[i2] < a[i2] {
                let i2 = choose|i2: int|
                    #![trigger b[i2], a[i2]]
                    0 <= i2 < b.len() && i2 < a.len() && (forall|j: int|
                        0 <= j < i2 ==> b[j] == a[j]) && b[i2] < a[i2];
                assert(a[i2] == b[i2]);
            }
        }
    }
}

/// The first index below `upto` at which `a` and `b` differ, or `upto`.
proof fn first_difference(a: Seq<u8>, b: Seq<u8>, upto: int) -> (i: int)
    requires
        0 <= upto <= a.len(),
        upto <= b.len(),
    ensures
        0 <= i <= upto,
        forall|j: int| 0 <= j < i ==> a[j] == b[j],
        i < upto ==> a[i] != b[i],
    decreases upto,
{
    if upto == 0 {
        0
    } else {
        let i = first_difference(a, b, upto - 1);
        if i < upto - 1 {
            i
        } else if a[upto - 1] != b[upto - 1] {
            upto - 1
        } else {
            upto
        }
    }
}

/// The keys in the range from a non-empty prefix to the prefix with its last
/// byte one greater (when that byte is below 255, so that nothing carries)
/// are exactly the keys that start with the prefix: a scan or removal by
/// prefix reaches them and nothing else.
pub proof fn lemma_prefix_range(p: Seq<u8>, k: Seq<u8>)
    requires
        p.len() > 0,
        p.last() < 255,
    ensures
        incremented(p) == p.drop_last().push((p.last() + 1) as u8),
        in_range(k, p, incremented(p)) <==> (p.len() <= k.len() && k.take(p.len() as int) == p),
{
    let n = p.len() as int;
    let e = incremented(p);
    assert(e =~= p.drop_last().push((p.last() + 1) as u8));
    if p.len() <= k.len() && k.take(n) == p {
        assert forall|j: int| 0 <= j < n implies k[j] == p[j] by {
            assert(k.take(n)[j] == k[j]);
        }
        assert(k[n - 1] < e[n - 1]);
        assert(lex_lt(k, e));
        if lex_lt(k, p) {
            let i = choose|i: int|
                #![trigger k[i], p[i]]
                0 <= i < k.len() && i < p.len() && (forall|j: int| 0 <= j < i ==> k[j] == p[j])
                    && k[i] < p[i];
            assert(k[i] == p[i]);
        }
    }
    if in_range(k, p, e) {
        let m = if n <= k.len() {
            n
        } else {
            k.len() as int
        };
        let i = first_difference(k, p, m);
        if i == m {
            if n <= k.len() {
                assert(k.take(n) =~= p);
            } else {
                assert(lex_lt(k, p));
            }
        } else if k[i] < p[i] {
            assert(lex_lt(k, p));
        } else if i < n - 1 {
            assert(e[i] == p[i]);
            assert forall|j: int| 0 <= j < i implies e[j] == k[j] by {
                assert(e[j] == p[j]);
            }
            assert(lex_lt(e, k));
            lemma_lex_lt_asymmetric(k, e);
        } else if k[i] > e[i] {
            assert forall|j: int| 0 <= j < i implies e[j] == k[j] by {
                assert(e[j] == p[j]);
            }
            assert(lex_lt(e, k));
            lemma_lex_lt_asymmetric(k, e);
        } else {
            assert forall|j: int| 0 <= j < n implies k[j] == e[j] by {
                if j < i {
                    assert(e[j] == p[j]);
                }
            }
            if lex_lt(k, e) {
                if exists|t: int|
                    #![trigger k[t], e[t]]
                    0 <= t < k.len() && t < e.len() && (forall|j: int| 0 <= j < t ==> k[j] == e[j])
                        && k[t] < e[t] {
                    let t = choose|t: int|
                        #![trigger k[t], e[t]]
                        0 <= t < k.len() && t < e.len() && (forall|j: int|
                            0 <= j < t ==> k[j] == e[j]) && k[t] < e[t];
                    assert(k[t] == e[t]);
                }
            }
        }
    }
}

/// Whether `k` starts with `p`.
pub open spec fn has_prefix(k: Seq<u8>, p: Seq<u8>) -> bool {
    p.len() <= k.len() && k.take(p.len() as int) == p
}

/// The keys that a scan or removal by a non-empty prefix whose last byte is
/// below 255 reaches are exactly the keys of the map that start with the
/// prefix.
pub proof fn lemma_prefix_keys(m: Map<Seq<u8>, Seq<u8>>, p: Seq<u8>)
    requires
        p.len() > 0,
        p.last() < 255,
    ensures
        keys_in_range(m, p, incremented(p)) == m.dom().filter(|k: Seq<u8>| has_prefix(k, p)),
{
    assert forall|k: Seq<u8>|
        keys_in_range(m, p, incremented(p)).contains(k) == m.dom().filter(
            |k: Seq<u8>| has_prefix(k, p),
        ).contains(k) by {
        lemma_prefix_range(p, k);
    }
    assert(keys_in_range(m, p, incremented(p)) =~= m.dom().filter(|k: Seq<u8>| has_prefix(k, p)));
}

/// A prefix without its trailing 255 bytes.
pub open spec fn prefix_core(p: Seq<u8>) -> Seq<u8>
    decreases p.len(),
{
    if p.len() > 0 && p.last() == 255u8 {
        prefix_core(p.drop_last())
    } else {
        p
    }
}

/// The first byte string after every key that starts with `p`: the prefix
/// without its trailing 255 bytes, its last byte one greater. `None` where
/// there is no such bound (an empty prefix, or one of 255 bytes only): every
/// key from the prefix on starts with it.
pub open spec fn prefix_end(p: Seq<u8>) -> Option<Seq<u8>> {
    let c = prefix_core(p);
    if c.len() == 0 {
        None
    } else {
        Some(c.drop_last().push((c.last() + 1) as u8))
    }
}

/// The core of a prefix starts it, ends below 255, and only 255 bytes follow
/// it in the prefix.
proof fn lemma_prefix_core(p: Seq<u8>)
    ensures
        prefix_core(p).len() <= p.len(),
        p.take(prefix_core(p).len() as int) == prefix_core(p),
        prefix_core(p).len() == 0 || prefix_core(p).last() < 255,
        forall|i: int| prefix_core(p).len() <= i < p.len() ==> p[i] == 255u8,
    decreases p.len(),
{
    if p.len() > 0 && p.last() == 255u8 {
        let d = p.drop_last();
        lemma_prefix_core(d);
        let c = prefix_core(d);
        assert(p.take(c.len() as int) =~= d.take(c.len() as int));
        assert forall|i: int| c.len() <= i < p.len() implies p[i] == 255u8 by {
            if i < p.len() - 1 {
                assert(p[i] == d[i]);
            }
        }
    } else {
        assert(p.take(p.len() as int) =~= p);
    }
}

/// A key that starts with `p` does not come before it.
proof fn lemma_prefixed_not_below(k: Seq<u8>, p: Seq<u8>)
    requires
        has_prefix(k, p),
    ensures
        !lex_lt(k, p),
{
    assert forall|j: int| 0 <= j < p.len() implies k[j] == p[j] by {
        assert(k.take(p.len() as int)[j] == k[j]);
    }
    if lex_lt(k, p) {
        if exists|i: int|
            #![trigger k[i], p[i]]
            0 <= i < k.len() && i < p.len() && (forall|j: int| 0 <= j < i ==> k[j] == p[j])
                && k[i] < p[i] {
            let i = choose|i: int|
                #![trigger k[i], p[i]]
                0 <= i < k.len() && i < p.len() && (forall|j: int| 0 <= j < i ==> k[j] == p[j])
                    && k[i] < p[i];
            assert(k[i] == p[i]);
        }
    }
}

/// What comes before a prefix of `p` comes before `p`.
proof fn lemma_below_prefix(k: Seq<u8>, c: Seq<u8>, p: Seq<u8>)
    requires
        has_prefix(p, c),
        lex_lt(k, c),
    ensures
        lex_lt(k, p),
{
    assert forall|j: int| 0 <= j < c.len() implies p[j] == c[j] by {
        assert(p.take(c.len() as int)[j] == p[j]);
    }
    if exists|i: int|
        #![trigger k[i], c[i]]
        0 <= i < k.len() && i < c.len() && (forall|j: int| 0 <= j < i ==> k[j] == c[j]) && k[i]
            < c[i] {
        let i = choose|i: int|
            #![trigger k[i], c[i]]
            0 <= i < k.len() && i < c.len() && (forall|j: int| 0 <= j < i ==> k[j] == c[j])
                && k[i] < c[i];
        assert(k[i] < p[i]);
        assert(forall|j: int| 0 <= j < i ==> k[j] == p[j]);
    } else {
        assert(k.len() < p.len());
        assert(forall|j: int| 0 <= j < k.len() ==> k[j] == p[j]);
    }
}

/// A key that starts with the core of `p` and does not come before `p`
/// starts with `p`, as only 255 bytes follow the core.
proof fn lemma_prefixed_by_tail(k: Seq<u8>, c: Seq<u8>, p: Seq<u8>)
    requires
        has_prefix(p, c),
        forall|i: int| c.len() <= i < p.len() ==> p[i] == 255u8,
        has_prefix(k, c),
        !lex_lt(k, p),
    ensures
        has_prefix(k, p),
{
    assert forall|j: int| 0 <= j < c.len() implies k[j] == p[j] by {
        assert(p.take(c.len() as int)[j] == p[j]);
        assert(k.take(c.len() as int)[j] == k[j]);
    }
    let m = if p.len() <= k.len() {
        p.len() as int
    } else {
        k.len() as int
    };
    let i = first_difference(k, p, m);
    if i == m {
        if p.len() <= k.len() {
            assert(k.take(p.len() as int) =~= p);
        } else {
            assert(lex_lt(k, p));
        }
    } else {
        assert(p[i] == 255u8);
        assert(k[i] < p[i]);
        assert(lex_lt(k, p));
    }
}

/// The keys that start with `p` are exactly those from `p` on that come
/// before `prefix_end(p)`, where there is such a bound.
pub proof fn lemma_prefix_bounds(p: Seq<u8>, k: Seq<u8>)
    ensures
        has_prefix(k, p) <==> (!lex_lt(k, p) && (prefix_end(p) matches Some(e) ==> lex_lt(k, e))),
{
    lemma_prefix_core(p);
    let c = prefix_core(p);
    assert(has_prefix(p, c));
    if has_prefix(k, p) {
        lemma_prefixed_not_below(k, p);
        if c.len() > 0 {
            assert forall|j: int| 0 <= j < c.len() implies k[j] == c[j] by {
                assert(k.take(p.len() as int)[j] == k[j]);
                assert(p.take(c.len() as int)[j] == p[j]);
            }
            assert(k.take(c.len() as int) =~= c);
            lemma_prefix_range(c, k);
        }
    }
    if !lex_lt(k, p) && (prefix_end(p) matches Some(e) ==> lex_lt(k, e)) {
        if c.len() > 0 {
            if lex_lt(k, c) {
                lemma_below_prefix(k, c, p);
            }
            lemma_prefix_range(c, k);
        } else {
            assert(k.take(0) =~= c);
        }
        lemma_prefixed_by_tail(k, c, p);
    }
}

/// The first byte string after every key that starts with `prefix`, where
/// there is one.
pub fn prefix_end_of(prefix: &[u8]) -> (r: Option<Vec<u8>>)
    ensures
        match prefix_end(prefix@) {
            Some(e) => r matches Some(v) && v@ == e,
            None => r is None,
        },
{
    let mut end = bytes_to_vec(prefix);
    let ghost p = prefix@;
    assert(p.take(p.len() as int) =~= p);
    while end.len() > 0 && end[end.len() - 1] == 255u8
        invariant
            end.len() <= p.len(),
            end@ == p.take(end.len() as int),
            prefix_core(p) == prefix_core(end@),
        decreases end.len(),
    {
        let ghost before = end@;
        end.pop();
        assert(end@ =~= p.take(end.len() as int));
        assert(before.drop_last() =~= end@);
    }
    let n = end.len();
    if n == 0 {
        return None;
    }
    let last = end[n - 1];
    end.set(n - 1, last + 1);
    Some(end)
}


/// Two byte strings that differ are ordered one way or the other.
pub proof fn lemma_lex_lt_total(a: Seq<u8>, b: Seq<u8>)
    requires
        a != b,
    ensures
        lex_lt(a, b) || lex_lt(b, a),
{
    let n = if a.len() <= b.len() {
        a.len() as int
    } else {
        b.len() as int
    };
    let i = first_difference(a, b, n);
    if i < n {
        if a[i] < b[i] {
            assert(lex_lt(a, b));
        } else {
            assert(lex_lt(b, a));
        }
    } else if a.len() < b.len() {
        assert(lex_lt(a, b));
    } else if b.len() < a.len() {
        assert(lex_lt(b, a));
    } else {
        assert(a =~= b);
    }
}

/// The order of byte strings is transitive.
pub proof fn lemma_lex_lt_transitive(a: Seq<u8>, b: Seq<u8>, c: Seq<u8>)
    requires
        lex_lt(a, b),
        lex_lt(b, c),
    ensures
        lex_lt(a, c),
{
    let ab = exists|i: int|
        #![trigger a[i], b[i]]
        0 <= i < a.len() && i < b.len() && (forall|j: int| 0 <= j < i ==> a[j] == b[j]) && a[i]
            < b[i];
    let bc = exists|i: int|
        #![trigger b[i], c[i]]
        0 <= i < b.len() && i < c.len() && (forall|j: int| 0 <= j < i ==> b[j] == c[j]) && b[i]
            < c[i];
    if ab {
        let i = choose|i: int|
            #![trigger a[i], b[i]]
            0 <= i < a.len() && i < b.len() && (forall|j: int| 0 <= j < i ==> a[j] == b[j]) && a[i]
                < b[i];
        if bc {
            let k = choose|k: int|
                #![trigger b[k], c[k]]
                0 <= k < b.len() && k < c.len() && (forall|j: int| 0 <= j < k ==> b[j] == c[j])
                    && b[k] < c[k];
            if i <= k {
                assert(a[i] < c[i]);
                assert(forall|j: int| 0 <= j < i ==> a[j] == c[j]);
            } else {
                assert(a[k] == b[k]);
                assert(forall|j: int| 0 <= j < k ==> a[j] == c[j]);
            }
        } else {
            assert(a[i] < c[i]);
            assert(forall|j: int| 0 <= j < i ==> a[j] == c[j]);
        }
    } else {
        if bc {
            let k = choose|k: int|
                #![trigger b[k], c[k]]
                0 <= k < b.len() && k < c.len() && (forall|j: int| 0 <= j < k ==> b[j] == c[j])
                    && b[k] < c[k];
            if k < a.len() {
                assert(a[k] == b[k]);
                assert(forall|j: int| 0 <= j < k ==> a[j] == c[j]);
            } else {
                assert(forall|j: int| 0 <= j < a.len() ==> a[j] == c[j]);
            }
        } else {
            assert(forall|j: int| 0 <= j < a.len() ==> a[j] == c[j]);
        }
    }
}

/// A byte string not below `b`, where `b` is not below `c`, is not below `c`.
pub proof fn lemma_lex_le_transitive(a: Seq<u8>, b: Seq<u8>, c: Seq<u8>)
    requires
        !lex_lt(a, b),
        !lex_lt(b, c),
    ensures
        !lex_lt(a, c),
{
    if lex_lt(a, c) {
        if b != c {
            lemma_lex_lt_total(b, c);
            lemma_lex_lt_transitive(a, c, b);
        }
    }
}

/// Incrementing a byte string keeps its length.
pub proof fn lemma_incremented_len(k: Seq<u8>)
    ensures
        incremented(k).len() == k.len(),
    decreases k.len(),
{
    if k.len() > 0 && k.last() == 255u8 {
        lemma_incremented_len(k.drop_last());
    }
}

/// A zero byte appended to a byte string not below `e` leaves it not below `e`.
proof fn lemma_push_not_below(x: Seq<u8>, e: Seq<u8>)
    requires
        !lex_lt(x, e),
    ensures
        !lex_lt(x.push(0u8), e),
{
    let y = x.push(0u8);
    if lex_lt(y, e) {
        if exists|i: int|
            #![trigger y[i], e[i]]
            0 <= i < y.len() && i < e.len() && (forall|j: int| 0 <= j < i ==> y[j] == e[j]) && y[i]
                < e[i] {
            let i = choose|i: int|
                #![trigger y[i], e[i]]
                0 <= i < y.len() && i < e.len() && (forall|j: int| 0 <= j < i ==> y[j] == e[j])
                    && y[i] < e[i];
            if i < x.len() {
                assert(x[i] == y[i]);
                assert(forall|j: int| 0 <= j < i ==> x[j] == e[j]);
            } else {
                assert(forall|j: int| 0 <= j < x.len() ==> x[j] == e[j]);
            }
        } else {
            assert(forall|j: int| 0 <= j < x.len() ==> x[j] == e[j]);
        }
    }
}

/// Incrementing a key that starts with `p` gives a longer-than-`p` key that
/// still starts with `p`, or a byte string at or after the end of the keys
/// that start with `p` (when the increment carries into `p` itself).
pub proof fn lemma_incremented_prefixed(k: Seq<u8>, p: Seq<u8>)
    requires
        has_prefix(k, p),
        prefix_end(p) is Some,
    ensures
        (k.len() > p.len() && has_prefix(incremented(k), p)) || !lex_lt(
            incremented(k),
            prefix_end(p)->0,
        ),
    decreases k.len(),
{
    let e = prefix_end(p)->0;
    lemma_prefix_core(p);
    if k.len() > p.len() {
        let k1 = k.drop_last();
        assert(k1.take(p.len() as int) =~= k.take(p.len() as int));
        if k.last() == 255u8 {
            lemma_incremented_prefixed(k1, p);
            lemma_incremented_len(k1);
            let x = incremented(k1);
            if k1.len() > p.len() && has_prefix(x, p) {
                assert(x.push(0u8).take(p.len() as int) =~= x.take(p.len() as int));
            } else {
                lemma_push_not_below(x, e);
            }
        } else {
            assert(incremented(k).take(p.len() as int) =~= k.take(p.len() as int));
        }
    } else {
        assert(k.take(k.len() as int) =~= k);
        assert(k == p);
        if p.last() == 255u8 {
            let p1 = p.drop_last();
            assert(prefix_core(p) == prefix_core(p1));
            assert(p1.take(p1.len() as int) =~= p1);
            lemma_incremented_prefixed(p1, p1);
            lemma_push_not_below(incremented(p1), e);
        } else {
            assert(incremented(p) == e);
            if lex_lt(e, e) {
                lemma_lex_lt_irreflexive(e, e);
            }
        }
    }
}

/// A key between two keys that start with `p` starts with `p` too.
pub proof fn lemma_between_prefixed(x: Seq<u8>, g: Seq<u8>, k: Seq<u8>, p: Seq<u8>)
    requires
        has_prefix(g, p),
        has_prefix(k, p),
        in_range(x, g, k),
    ensures
        has_prefix(x, p),
{
    lemma_prefix_bounds(p, g);
    lemma_prefix_bounds(p, k);
    lemma_prefix_bounds(p, x);
    lemma_lex_le_transitive(x, g, p);
    if prefix_end(p) is Some {
        lemma_lex_lt_transitive(x, k, prefix_end(p)->0);
    }
}

/// A byte string at or after the end of the keys that start with `p` comes
/// after each of them.
pub proof fn lemma_beyond_prefixed(g: Seq<u8>, k: Seq<u8>, p: Seq<u8>)
    requires
        prefix_end(p) is Some,
        !lex_lt(g, prefix_end(p)->0),
        has_prefix(k, p),
    ensures
        !lex_lt(g, k),
{
    lemma_prefix_bounds(p, k);
    if lex_lt(g, k) {
        lemma_lex_lt_transitive(g, k, prefix_end(p)->0);
    }
}

/// Whether some byte of `k` is below 255, so that incrementing `k` does not
/// wrap around.
pub open spec fn below_max(k: Seq<u8>) -> bool {
    exists|i: int| 0 <= i < k.len() && #[trigger] k[i] < 255
}

/// Incrementing a byte string that does not wrap around gives a later one.
pub proof fn lemma_incremented_above(k: Seq<u8>)
    requires
        below_max(k),
    ensures
        lex_lt(k, incremented(k)),
    decreases k.len(),
{
    lemma_incremented_len(k);
    let c = incremented(k);
    let n = k.len() - 1;
    if k.last() != 255u8 {
        assert(c[n] == k[n] + 1);
        assert(forall|j: int| 0 <= j < n ==> k[j] == c[j]);
        assert(k[n] < c[n]);
    } else {
        let k1 = k.drop_last();
        let w = choose|i: int| 0 <= i < k.len() && #[trigger] k[i] < 255;
        assert(k1[w] == k[w]);
        lemma_incremented_above(k1);
        lemma_incremented_len(k1);
        let a = incremented(k1);
        let i = choose|i: int|
            #![trigger k1[i], a[i]]
            0 <= i < k1.len() && i < a.len() && (forall|j: int| 0 <= j < i ==> k1[j] == a[j])
                && k1[i] < a[i];
        assert(c == a.push(0u8));
        assert(c[i] == a[i] && k[i] == k1[i]);
        assert(forall|j: int| 0 <= j < i ==> k[j] == k1[j] && c[j] == a[j]);
        assert(k[i] < c[i]);
    }
}

/// No byte string of the same length lies strictly between a byte string
/// that does not wrap around and its increment.
pub proof fn lemma_incremented_next(k: Seq<u8>, x: Seq<u8>)
    requires
        below_max(k),
        k.len() == x.len(),
        lex_lt(k, x),
    ensures
        !lex_lt(x, incremented(k)),
    decreases k.len(),
{
    lemma_incremented_len(k);
    let c = incremented(k);
    let n = k.len() - 1;
    let i = choose|i: int|
        #![trigger k[i], x[i]]
        0 <= i < k.len() && i < x.len() && (forall|j: int| 0 <= j < i ==> k[j] == x[j]) && k[i]
            < x[i];
    if k.last() != 255u8 {
        assert(c[n] == k[n] + 1);
        assert(forall|j: int| 0 <= j < n ==> k[j] == c[j]);
        if lex_lt(x, c) {
            let j = choose|j: int|
                #![trigger x[j], c[j]]
                0 <= j < x.len() && j < c.len() && (forall|l: int| 0 <= l < j ==> x[l] == c[l])
                    && x[j] < c[j];
            if j < i {
                assert(x[j] == k[j]);
            } else if j == i {
            } else {
                assert(x[i] == c[i]);
            }
        }
    } else {
        let k1 = k.drop_last();
        let x1 = x.drop_last();
        assert(i < n);
        assert(k1[i] == k[i] && x1[i] == x[i]);
        assert(forall|j: int| 0 <= j < i ==> k1[j] == x1[j]);
        assert(lex_lt(k1, x1));
        let w = choose|w: int| 0 <= w < k.len() && #[trigger] k[w] < 255;
        assert(k1[w] == k[w]);
        lemma_incremented_next(k1, x1);
        lemma_incremented_len(k1);
        let a = incremented(k1);
        assert(c == a.push(0u8));
        if lex_lt(x, c) {
            let j = choose|j: int|
                #![trigger x[j], c[j]]
                0 <= j < x.len() && j < c.len() && (forall|l: int| 0 <= l < j ==> x[l] == c[l])
                    && x[j] < c[j];
            assert(j < n);
            assert(x1[j] == x[j] && a[j] == c[j]);
            assert(forall|l: int| 0 <= l < j ==> x1[l] == a[l]);
            assert(lex_lt(x1, a));
        }
    }
}

/// A key that starts with a prefix whose keys have an end does not wrap
/// around when incremented.
pub proof fn lemma_prefixed_below_max(k: Seq<u8>, p: Seq<u8>)
    requires
        has_prefix(k, p),
        prefix_end(p) is Some,
    ensures
        below_max(k),
{
    lemma_prefix_core(p);
    let c = prefix_core(p);
    let w = c.len() - 1;
    assert(p[w] == c[w]);
    assert(k.take(p.len() as int)[w] == k[w]);
    assert(k[w] < 255);
}

} // verus!
