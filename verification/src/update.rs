//! Bringing the cached resources of a view up to date from a stream of
//! updates whose keys come in ascending order. Everything stored between the
//! previous update's key and the current one is gone from the source, so it
//! is removed ("the gap"); the stream itself is read by the caller, which
//! hands each update to the step functions here.
use crate::bytes::{bytes_to_vec, compare_bytes, increment_key, incremented, lex_lt, KeyOrder};
use crate::key::Error;
use crate::store::{
    has_prefix, prefix_end_of, in_range, keys_in_range, lemma_beyond_prefixed,
    lemma_between_prefixed, lemma_incremented_above, lemma_incremented_len, lemma_incremented_next,
    lemma_incremented_prefixed, lemma_lex_le_transitive, lemma_lex_lt_irreflexive,
    lemma_lex_lt_transitive, lemma_prefix_bounds, lemma_prefixed_below_max, prefix_end,
    removed_partly, GlazeStore, Store,
};
use vstd::prelude::*;

verus! {

/// The concatenation of a view's key bytes and a resource's key bytes.
pub fn concat_bytes(a: &[u8], b: &[u8]) -> (r: Vec<u8>)
    ensures
        r@ == a@ + b@,
{
    let mut r = bytes_to_vec(a);
    crate::bytes::append_bytes(&mut r, b, 0, b.len());
    assert(b@.subrange(0, b@.len() as int) =~= b@);
    r
}

/// The pairs after one update of a view: those whose keys lie between
/// `gap` and `key` are removed, and `key` is written when the update carries
/// a value.
pub open spec fn step_entries(
    m: Map<Seq<u8>, Seq<u8>>,
    gap: Seq<u8>,
    key: Seq<u8>,
    value: Option<Seq<u8>>,
) -> Map<Seq<u8>, Seq<u8>> {
    let cleared = m.remove_keys(keys_in_range(m, gap, key));
    match value {
        Some(v) => cleared.insert(key, v),
        None => cleared,
    }
}

/// The pairs after a run of updates of a view whose gap starts at `gap`:
/// each update takes its step, and the gap then starts just past its key.
pub open spec fn run_entries(
    m: Map<Seq<u8>, Seq<u8>>,
    gap: Seq<u8>,
    updates: Seq<(Seq<u8>, Option<Seq<u8>>)>,
) -> Map<Seq<u8>, Seq<u8>>
    decreases updates.len(),
{
    if updates.len() == 0 {
        m
    } else {
        run_entries(
            step_entries(m, gap, updates[0].0, updates[0].1),
            incremented(updates[0].0),
            updates.drop_first(),
        )
    }
}

/// The pairs of `m` whose keys do not start with `p`.
pub open spec fn outside(m: Map<Seq<u8>, Seq<u8>>, p: Seq<u8>) -> Map<Seq<u8>, Seq<u8>> {
    m.restrict(m.dom().filter(|k: Seq<u8>| !has_prefix(k, p)))
}

/// A gap that does not start before its end holds no key.
proof fn lemma_empty_gap(m: Map<Seq<u8>, Seq<u8>>, gap: Seq<u8>, key: Seq<u8>)
    requires
        !lex_lt(gap, key),
    ensures
        m.remove_keys(keys_in_range(m, gap, key)) == m,
{
    assert forall|x: Seq<u8>| !in_range(x, gap, key) by {
        if !lex_lt(x, gap) {
            lemma_lex_le_transitive(x, gap, key);
        }
    }
    assert(m.remove_keys(keys_in_range(m, gap, key)) =~= m);
}

/// Replacing the resources of a view touches no other view: a run of
/// updates whose keys all start with the view's key bytes `p`, and whose gap
/// starts within the view (or after it), leaves every pair whose key does not
/// start with `p` as it was. Where `p` is not empty this needs a byte below
/// 255 in it, so that the keys of the view have an end.
pub proof fn lemma_run_keeps_other_views(
    m: Map<Seq<u8>, Seq<u8>>,
    p: Seq<u8>,
    gap: Seq<u8>,
    updates: Seq<(Seq<u8>, Option<Seq<u8>>)>,
)
    requires
        p.len() == 0 || prefix_end(p) is Some,
        has_prefix(gap, p) || !lex_lt(gap, prefix_end(p)->0),
        forall|i: int| 0 <= i < updates.len() ==> has_prefix(#[trigger] updates[i].0, p),
    ensures
        outside(run_entries(m, gap, updates), p) == outside(m, p),
    decreases updates.len(),
{
    if p.len() == 0 {
        let after = run_entries(m, gap, updates);
        assert forall|x: Seq<u8>| has_prefix(x, p) by {
            assert(x.take(0) =~= p);
        }
        assert(outside(after, p) =~= outside(m, p));
    } else if updates.len() > 0 {
        let k = updates[0].0;
        assert(has_prefix(updates[0].0, p));
        let m1 = step_entries(m, gap, k, updates[0].1);
        assert forall|x: Seq<u8>| !has_prefix(x, p) implies !in_range(x, gap, k) by {
            if in_range(x, gap, k) {
                if has_prefix(gap, p) {
                    lemma_between_prefixed(x, gap, k, p);
                } else {
                    lemma_beyond_prefixed(gap, k, p);
                    lemma_lex_le_transitive(x, gap, k);
                }
            }
        }
        assert(outside(m1, p) =~= outside(m, p));
        lemma_incremented_prefixed(k, p);
        let rest = updates.drop_first();
        assert forall|i: int| 0 <= i < rest.len() implies has_prefix(#[trigger] rest[i].0, p) by {
            assert(rest[i] == updates[i + 1]);
        }
        lemma_run_keeps_other_views(m1, p, incremented(k), rest);
    }
}

/// Applies one update of a browser store: removes what lies between
/// `gap_start` and the update's key, stores the resource if the update
/// carries one, and moves `gap_start` just past the key. An update whose key
/// comes before `gap_start` breaks the ascending order and is refused,
/// leaving everything as it was.
pub fn apply_store_update(
    store: &mut GlazeStore,
    view_key: &[u8],
    gap_start: &mut Vec<u8>,
    key: &[u8],
    resource: Option<Vec<u8>>,
) -> (r: Result<(), Error>)
    ensures
        lex_lt(view_key@ + key@, old(gap_start)@) ==> {
            &&& r matches Err(Error::UnexpectedStreamYield { expected, actual })
            &&& expected@ == "key lexicographically greater than the last"@
            &&& actual@ == "key lexicographically less than the last"@
            &&& final(store).entries() == old(store).entries()
            &&& final(gap_start)@ == old(gap_start)@
        },
        !lex_lt(view_key@ + key@, old(gap_start)@) ==> {
            let kb = view_key@ + key@;
            let cleared = old(store).entries().remove_keys(
                keys_in_range(old(store).entries(), old(gap_start)@, kb),
            );
            &&& r is Ok
            &&& final(store).entries() == match resource {
                Some(v) => cleared.insert(kb, v@),
                None => cleared,
            }
            &&& final(gap_start)@ == incremented(kb)
            &&& final(store).entries() == step_entries(
                old(store).entries(),
                old(gap_start)@,
                kb,
                match resource {
                    Some(v) => Some(v@),
                    None => None,
                },
            )
        },
{
    let key_bytes = concat_bytes(view_key, key);
    match compare_bytes(key_bytes.as_slice(), gap_start.as_slice()) {
        KeyOrder::Less => {
            return Err(
                Error::UnexpectedStreamYield {
                    expected: "key lexicographically greater than the last",
                    actual: "key lexicographically less than the last",
                },
            );
        },
        _ => {},
    }
    let _ = store.remove_range(gap_start.as_slice(), key_bytes.as_slice());
    match resource {
        Some(v) => {
            let _ = store.insert(key_bytes.as_slice(), v);
        },
        None => {},
    }
    let mut next = key_bytes;
    increment_key(&mut next);
    *gap_start = next;
    Ok(())
}

/// One step of replacing the cached resources of a view: when the key comes
/// after `gap_start`, removes what lies between them; then moves `gap_start`
/// just past the key. A key that does not come after `gap_start` removes
/// nothing.
pub fn replace_view_gap<S: Store>(store: &mut S, gap_start: &mut Vec<u8>, key_bytes: &[u8]) -> (r:
    Result<(), Error>)
    ensures
        lex_lt(old(gap_start)@, key_bytes@) ==> (r is Ok ==> final(store).entries() == old(
            store,
        ).entries().remove_keys(keys_in_range(old(store).entries(), old(gap_start)@, key_bytes@))),
        !lex_lt(old(gap_start)@, key_bytes@) ==> r is Ok && final(store).entries() == old(
            store,
        ).entries(),
        old(store).infallible() ==> r is Ok,
        final(store).infallible() == old(store).infallible(),
        r is Ok ==> final(store).failures() == old(store).failures(),
        r matches Err(e) ==> final(store).failures() == old(store).failures().push(e) || (
        final(store).failures() == old(store).failures() && final(store).entries() == old(
            store,
        ).entries()),
        r is Ok ==> final(gap_start)@ == incremented(key_bytes@),
        r is Ok ==> final(store).entries() == step_entries(
            old(store).entries(),
            old(gap_start)@,
            key_bytes@,
            None,
        ),
        r is Err ==> final(gap_start)@ == old(gap_start)@ && removed_partly(
            final(store).entries(),
            old(store).entries(),
            keys_in_range(old(store).entries(), old(gap_start)@, key_bytes@),
        ),
{
    match compare_bytes(gap_start.as_slice(), key_bytes) {
        KeyOrder::Less => {
            store.remove_range(gap_start.as_slice(), key_bytes)?;
        },
        _ => {
            proof {
                lemma_empty_gap(old(store).entries(), old(gap_start)@, key_bytes@);
            }
        },
    }
    let mut next = bytes_to_vec(key_bytes);
    increment_key(&mut next);
    *gap_start = next;
    Ok(())
}

/// The keys of `m` that the last step of replacing a view removes: those
/// from `gap` on that come before the end of the view's keys `p`, or all
/// from `gap` on where the view's keys have no end.
pub open spec fn rest_of_view(m: Map<Seq<u8>, Seq<u8>>, gap: Seq<u8>, p: Seq<u8>) -> Set<Seq<u8>> {
    match prefix_end(p) {
        Some(e) => keys_in_range(m, gap, e),
        None => m.dom().filter(|k: Seq<u8>| !lex_lt(k, gap)),
    }
}

/// The last step of replacing the resources of a view, once the stream has
/// ended: removes the view's pairs from `gap_start` on, which the stream did
/// not hold. With `gap_start` within the view (or after it) these are the
/// pairs whose keys start with `view_key` and do not come before
/// `gap_start` (see `lemma_rest_of_view`).
pub fn replace_view_rest<S: Store>(store: &mut S, gap_start: &[u8], view_key: &[u8]) -> (r: Result<
    (),
    Error,
>)
    ensures
        old(store).infallible() ==> r is Ok,
        final(store).infallible() == old(store).infallible(),
        r is Ok ==> final(store).failures() == old(store).failures(),
        r matches Err(e) ==> final(store).failures() == old(store).failures().push(e) || (
        final(store).failures() == old(store).failures() && final(store).entries() == old(
            store,
        ).entries()),
        r is Ok ==> final(store).entries() == old(store).entries().remove_keys(
            rest_of_view(old(store).entries(), gap_start@, view_key@),
        ),
        r is Err ==> removed_partly(
            final(store).entries(),
            old(store).entries(),
            rest_of_view(old(store).entries(), gap_start@, view_key@),
        ),
{
    match prefix_end_of(view_key) {
        Some(end) => store.remove_range(gap_start, end.as_slice()),
        None => {
            let pairs = store.scan_from(gap_start)?;
            store.remove_listed(&pairs, Ghost(|k: Seq<u8>| !lex_lt(k, gap_start@)))
        },
    }
}

/// The keys that the last step of replacing a view removes, when the gap
/// starts within the view or after it, are exactly the view's keys that do
/// not come before the gap start.
pub proof fn lemma_rest_of_view(m: Map<Seq<u8>, Seq<u8>>, gap: Seq<u8>, p: Seq<u8>)
    requires
        has_prefix(gap, p) || (prefix_end(p) is Some && !lex_lt(gap, prefix_end(p)->0)),
    ensures
        rest_of_view(m, gap, p) == m.dom().filter(
            |k: Seq<u8>| has_prefix(k, p) && !lex_lt(k, gap),
        ),
{
    assert forall|k: Seq<u8>| #[trigger] m.dom().contains(k) implies rest_of_view(m, gap, p).contains(
        k,
    ) == (has_prefix(k, p) && !lex_lt(k, gap)) by {
        lemma_prefix_bounds(p, k);
        lemma_prefix_bounds(p, gap);
        if !lex_lt(k, gap) {
            if has_prefix(gap, p) {
                lemma_lex_le_transitive(k, gap, p);
            } else {
                lemma_lex_le_transitive(k, gap, prefix_end(p)->0);
            }
        }
    }
    assert(rest_of_view(m, gap, p) =~= m.dom().filter(
        |k: Seq<u8>| has_prefix(k, p) && !lex_lt(k, gap),
    ));
}

/// Whether some update of `ups` has the key `x`.
pub open spec fn listed(ups: Seq<(Seq<u8>, Option<Seq<u8>>)>, x: Seq<u8>) -> bool
    decreases ups.len(),
{
    ups.len() > 0 && (ups[0].0 == x || listed(ups.drop_first(), x))
}

/// The value that the first update of `ups` with the key `x` writes, if it
/// writes one.
pub open spec fn written(ups: Seq<(Seq<u8>, Option<Seq<u8>>)>, x: Seq<u8>) -> Option<Seq<u8>>
    decreases ups.len(),
{
    if ups.len() == 0 {
        None
    } else if ups[0].0 == x {
        ups[0].1
    } else {
        written(ups.drop_first(), x)
    }
}

/// Where the gap starts after a run of updates from `gap`: just past the last
/// key.
pub open spec fn run_gap(gap: Seq<u8>, ups: Seq<(Seq<u8>, Option<Seq<u8>>)>) -> Seq<u8> {
    if ups.len() == 0 {
        gap
    } else {
        incremented(ups.last().0)
    }
}

/// The pairs after the resources of the view `p` are replaced by a run of
/// updates: the gap starts at the view, each update takes its step, and the
/// view's pairs after the last key are removed.
pub open spec fn replaced_entries(
    m: Map<Seq<u8>, Seq<u8>>,
    p: Seq<u8>,
    ups: Seq<(Seq<u8>, Option<Seq<u8>>)>,
) -> Map<Seq<u8>, Seq<u8>> {
    let after = run_entries(m, p, ups);
    after.remove_keys(rest_of_view(after, run_gap(p, ups), p))
}

/// Whether the updates' keys start with `p`, have length `n` and ascend.
pub open spec fn view_updates(ups: Seq<(Seq<u8>, Option<Seq<u8>>)>, p: Seq<u8>, n: nat) -> bool {
    &&& forall|i: int|
        0 <= i < ups.len() ==> has_prefix(#[trigger] ups[i].0, p) && ups[i].0.len() == n
    &&& forall|i: int, j: int| 0 <= i < j < ups.len() ==> lex_lt(ups[i].0, ups[j].0)
}

/// A key is listed exactly where some update has it, and a written key is
/// listed.
proof fn lemma_listed_at(ups: Seq<(Seq<u8>, Option<Seq<u8>>)>, x: Seq<u8>)
    ensures
        listed(ups, x) <==> exists|i: int| 0 <= i < ups.len() && #[trigger] ups[i].0 == x,
        written(ups, x) is Some ==> listed(ups, x),
    decreases ups.len(),
{
    if ups.len() > 0 {
        let t = ups.drop_first();
        lemma_listed_at(t, x);
        if exists|i: int| 0 <= i < ups.len() && #[trigger] ups[i].0 == x {
            let i = choose|i: int| 0 <= i < ups.len() && #[trigger] ups[i].0 == x;
            if i > 0 {
                assert(t[i - 1] == ups[i]);
            }
        }
        if listed(t, x) {
            let i = choose|i: int| 0 <= i < t.len() && #[trigger] t[i].0 == x;
            assert(ups[i + 1] == t[i]);
        }
    }
}

/// Every key of a run of view updates comes before the gap after the run.
proof fn lemma_keys_before_gap(
    ups: Seq<(Seq<u8>, Option<Seq<u8>>)>,
    g: Seq<u8>,
    p: Seq<u8>,
    n: nat,
    i: int,
)
    requires
        prefix_end(p) is Some,
        view_updates(ups, p, n),
        0 <= i < ups.len(),
    ensures
        lex_lt(ups[i].0, run_gap(g, ups)),
{
    let last = ups.last().0;
    assert(has_prefix(ups[ups.len() - 1].0, p));
    lemma_prefixed_below_max(last, p);
    lemma_incremented_above(last);
    if i < ups.len() - 1 {
        lemma_lex_lt_transitive(ups[i].0, last, incremented(last));
    }
}

/// What a run of view updates leaves of the keys of the view of length `n`:
/// a key before the gap start or from the final gap on keeps what it had, a
/// key that an update writes holds that value, another listed key keeps what
/// it had, and every other key between is removed; and the run brings in no
/// key but the listed ones.
proof fn lemma_run_view(
    m: Map<Seq<u8>, Seq<u8>>,
    g: Seq<u8>,
    ups: Seq<(Seq<u8>, Option<Seq<u8>>)>,
    p: Seq<u8>,
    n: nat,
)
    requires
        prefix_end(p) is Some,
        has_prefix(g, p) || !lex_lt(g, prefix_end(p)->0),
        view_updates(ups, p, n),
        ups.len() > 0 ==> !lex_lt(ups[0].0, g),
    ensures
        forall|x: Seq<u8>| #[trigger]
            run_entries(m, g, ups).contains_key(x) ==> m.contains_key(x) || listed(ups, x),
        forall|x: Seq<u8>|
            has_prefix(x, p) && x.len() == n ==> (#[trigger] run_entries(m, g, ups).contains_key(x)
                <==> ((lex_lt(x, g) || !lex_lt(x, run_gap(g, ups))) && m.contains_key(x)) || written(
                ups,
                x,
            ) is Some || (listed(ups, x) && m.contains_key(x))),
        forall|x: Seq<u8>|
            has_prefix(x, p) && x.len() == n && #[trigger] run_entries(m, g, ups).contains_key(x)
                ==> run_entries(m, g, ups)[x] == match written(ups, x) {
                Some(v) => v,
                None => m[x],
            },
    decreases ups.len(),
{
    if ups.len() > 0 {
        let k = ups[0].0;
        let v = ups[0].1;
        let rest = ups.drop_first();
        let m1 = step_entries(m, g, k, v);
        let g1 = incremented(k);
        assert(has_prefix(ups[0].0, p));
        lemma_prefixed_below_max(k, p);
        lemma_incremented_above(k);
        lemma_incremented_len(k);
        lemma_incremented_prefixed(k, p);
        assert(view_updates(rest, p, n)) by {
            assert forall|i: int| 0 <= i < rest.len() implies has_prefix(#[trigger] rest[i].0, p)
                && rest[i].0.len() == n by {
                assert(rest[i] == ups[i + 1]);
            }
            assert forall|i: int, j: int| 0 <= i < j < rest.len() implies lex_lt(
                rest[i].0,
                rest[j].0,
            ) by {
                assert(rest[i] == ups[i + 1] && rest[j] == ups[j + 1]);
            }
        }
        if rest.len() > 0 {
            assert(rest[0] == ups[1]);
            assert(has_prefix(ups[1].0, p));
            lemma_incremented_next(k, rest[0].0);
        }
        lemma_run_view(m1, g1, rest, p, n);
        let res = run_entries(m, g, ups);
        assert(res == run_entries(m1, g1, rest));
        assert(run_gap(g, ups) == run_gap(g1, rest)) by {
            if rest.len() > 0 {
                assert(rest.last() == ups.last());
            }
        }
        let gg = run_gap(g, ups);
        // the keys of the rest come after k
        assert forall|x: Seq<u8>| listed(rest, x) implies lex_lt(k, x) by {
            lemma_listed_at(rest, x);
            let i = choose|i: int| 0 <= i < rest.len() && #[trigger] rest[i].0 == x;
            assert(rest[i] == ups[i + 1]);
        }
        assert forall|x: Seq<u8>| #[trigger] res.contains_key(x) implies m.contains_key(x) || listed(
            ups,
            x,
        ) by {
            if !listed(rest, x) && x != k {
                assert(m1.contains_key(x));
            }
        }
        assert forall|x: Seq<u8>| has_prefix(x, p) && x.len() == n implies {
            &&& (#[trigger] res.contains_key(x) <==> ((lex_lt(x, g) || !lex_lt(x, gg))
                && m.contains_key(x)) || written(ups, x) is Some || (listed(ups, x)
                && m.contains_key(x)))
            &&& res.contains_key(x) ==> res[x] == match written(ups, x) {
                Some(w) => w,
                None => m[x],
            }
        } by {
            lemma_listed_at(rest, x);
            lemma_keys_before_gap(ups, g, p, n, 0);
            if x == k {
                if listed(rest, x) {
                    lemma_lex_lt_irreflexive(k, x);
                }
                assert(!in_range(k, g, k));
                assert(lex_lt(x, g1));
            } else if lex_lt(x, k) {
                if listed(rest, x) {
                    lemma_lex_lt_transitive(k, x, k);
                    lemma_lex_lt_irreflexive(k, k);
                }
                lemma_lex_lt_transitive(x, k, g1);
                lemma_lex_lt_transitive(x, k, gg);
                if lex_lt(x, gg) {
                    assert(!(!lex_lt(x, gg)));
                }
                if in_range(x, g, k) {
                    assert(!lex_lt(x, g));
                } else {
                    assert(lex_lt(x, g));
                }
            } else {
                crate::store::lemma_lex_lt_total(x, k);
                assert(lex_lt(k, x));
                lemma_incremented_next(k, x);
                assert(!in_range(x, g, k));
                if lex_lt(x, g) {
                    lemma_lex_le_transitive(k, g, x);
                    lemma_lex_lt_transitive(k, x, g);
                    lemma_lex_lt_irreflexive(k, k);
                }
            }
        }
    }
}

/// Replacing the resources of a view replaces exactly the view's resources:
/// after the gap starts at the view's key bytes `p`, a run of updates whose
/// keys start with `p`, have the length `n` of the view's keys and ascend,
/// and the removal of the view's pairs after the last key, the view holds
/// the keys that an update writes, with the values written, and the keys
/// that an update lists without a value where they were held before, with
/// their old values; it holds no other key, and every pair outside the view
/// is as it was. (The view's keys need a byte below 255 in `p`, so that they
/// have an end.)
pub proof fn lemma_replace_view(
    m: Map<Seq<u8>, Seq<u8>>,
    p: Seq<u8>,
    n: nat,
    ups: Seq<(Seq<u8>, Option<Seq<u8>>)>,
)
    requires
        prefix_end(p) is Some,
        forall|k: Seq<u8>| #[trigger] m.contains_key(k) && has_prefix(k, p) ==> k.len() == n,
        view_updates(ups, p, n),
    ensures
        outside(replaced_entries(m, p, ups), p) == outside(m, p),
        forall|x: Seq<u8>|
            has_prefix(x, p) ==> (#[trigger] replaced_entries(m, p, ups).contains_key(x) <==> (
            written(ups, x) is Some || (listed(ups, x) && m.contains_key(x)))),
        forall|x: Seq<u8>|
            has_prefix(x, p) && #[trigger] replaced_entries(m, p, ups).contains_key(x)
                ==> replaced_entries(m, p, ups)[x] == match written(ups, x) {
                Some(v) => v,
                None => m[x],
            },
{
    let after = run_entries(m, p, ups);
    let gg = run_gap(p, ups);
    let out = replaced_entries(m, p, ups);
    assert(p.take(p.len() as int) =~= p);
    if ups.len() > 0 {
        assert(has_prefix(ups[0].0, p));
        lemma_prefix_bounds(p, ups[0].0);
        assert(has_prefix(ups[ups.len() - 1].0, p));
        lemma_incremented_prefixed(ups.last().0, p);
    }
    lemma_run_view(m, p, ups, p, n);
    lemma_run_keeps_other_views(m, p, p, ups);
    lemma_rest_of_view(after, gg, p);
    assert forall|x: Seq<u8>| has_prefix(x, p) implies (#[trigger] out.contains_key(x) <==> (
    written(ups, x) is Some || (listed(ups, x) && m.contains_key(x)))) && (out.contains_key(x)
        ==> out[x] == match written(ups, x) {
        Some(v) => v,
        None => m[x],
    }) by {
        lemma_listed_at(ups, x);
        lemma_prefix_bounds(p, x);
        if listed(ups, x) {
            let i = choose|i: int| 0 <= i < ups.len() && #[trigger] ups[i].0 == x;
            lemma_keys_before_gap(ups, p, p, n, i);
            assert(x.len() == n);
        } else if x.len() == n {
            if after.contains_key(x) {
                assert(!lex_lt(x, gg));
            }
        } else {
            assert(!after.contains_key(x));
        }
    }
    assert(outside(out, p) =~= outside(after, p));
}

/// The timestamps of a cache entry that is written again: when it was last
/// updated and when its resource last changed.
pub struct EntryTimes<T> {
    pub updated: T,
    pub written: T,
}

/// The timestamps to store for a resource at time `now`: the resource counts
/// as written now unless it equals the one stored before, whose write time
/// then stays. `None` when there is nothing to store: no new resource and no
/// old entry.
pub fn next_entry_times<T: Copy>(
    new_resource: bool,
    old_written: Option<T>,
    same_resource: bool,
    now: T,
) -> (r: Option<EntryTimes<T>>)
    ensures
        new_resource ==> r == Some(
            EntryTimes {
                updated: now,
                written: match old_written {
                    Some(w) => if same_resource {
                        w
                    } else {
                        now
                    },
                    None => now,
                },
            },
        ),
        !new_resource ==> r == match old_written {
            Some(w) => Some(EntryTimes { updated: now, written: w }),
            None => None::<EntryTimes<T>>,
        },
{
    if new_resource {
        let written = match old_written {
            Some(w) => if same_resource {
                w
            } else {
                now
            },
            None => now,
        };
        Some(EntryTimes { updated: now, written })
    } else {
        match old_written {
            Some(w) => Some(EntryTimes { updated: now, written: w }),
            None => None,
        }
    }
}

} // verus!
