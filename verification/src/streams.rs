//! The decisions of fallible stream combinators: a stream that stands for an
//! error, a flat map that reads one inner stream at a time, and a flat map
//! that reads all of its inner streams at once.
//!
//! Polling the streams is left to whoever drives the combinators; what is
//! kept, dropped and yielded is decided here.
use vstd::multiset::Multiset;
use vstd::prelude::*;

verus! {

/// A stream, or an error that stands for a stream and is yielded once.
#[derive(Debug)]
pub enum YieldError<S, E> {
    /// The stream itself.
    Stream(S),
    /// The error, until it has been yielded.
    Failure(Option<E>),
}

impl<S, E> YieldError<S, E> {
    /// Holds the error where there is one, else the stream.
    pub fn from_result(r: Result<S, E>) -> (y: YieldError<S, E>)
        ensures
            match r {
                Ok(s) => y == YieldError::<S, E>::Stream(s),
                Err(e) => y == YieldError::<S, E>::Failure(Some(e)),
            },
    {
        match r {
            Ok(s) => YieldError::Stream(s),
            Err(e) => YieldError::Failure(Some(e)),
        }
    }

    /// The stream itself.
    pub fn from_output(s: S) -> (y: YieldError<S, E>)
        ensures
            y == YieldError::<S, E>::Stream(s),
    {
        YieldError::Stream(s)
    }

    /// An error that stands for a stream, where there is one.
    pub fn from_residual(e: Option<E>) -> (y: YieldError<S, E>)
        ensures
            y == YieldError::<S, E>::Failure(e),
    {
        YieldError::Failure(e)
    }

    /// The stream to go on with, or the error that ends it.
    pub fn branch(self) -> (r: Result<S, Option<E>>)
        ensures
            match self {
                YieldError::Stream(s) => r == Ok::<S, Option<E>>(s),
                YieldError::Failure(e) => r == Err::<S, Option<E>>(e),
            },
    {
        match self {
            YieldError::Stream(s) => Ok(s),
            YieldError::Failure(e) => Err(e),
        }
    }

    /// What polling an error yields: the error the first time, and the end of
    /// the stream after that.
    pub fn take_error(&mut self) -> (r: Option<E>)
        requires
            *old(self) is Failure,
        ensures
            r == (*old(self))->Failure_0,
            *final(self) == YieldError::<S, E>::Failure(None),
    {
        match self {
            YieldError::Failure(e) => {
                let r = e.take();
                r
            },
            YieldError::Stream(_) => {
                proof {
                    assert(false);
                }
                None
            },
        }
    }
}

impl<S, E> From<Result<S, E>> for YieldError<S, E> {
    fn from(r: Result<S, E>) -> (y: YieldError<S, E>) {
        YieldError::from_result(r)
    }
}

impl<S, E> vstd::std_specs::convert::FromSpecImpl<Result<S, E>> for YieldError<S, E> {
    open spec fn obeys_from_spec() -> bool {
        true
    }

    open spec fn from_spec(r: Result<S, E>) -> YieldError<S, E> {
        match r {
            Ok(s) => YieldError::Stream(s),
            Err(e) => YieldError::Failure(Some(e)),
        }
    }
}

/// What a flat map found when it polled.
pub enum FlatMapPoll<I, U, E> {
    /// The current inner stream yielded this item, or ended.
    Inner(Option<I>),
    /// The source yielded this inner stream (what the map made of its
    /// item), failed, or ended.
    Source(Option<Result<U, E>>),
}

/// What a flat map does after a poll.
pub enum FlatMapStep<I, E> {
    /// Yield this item.
    Yield(I),
    /// Yield this error.
    Fail(E),
    /// The stream is over.
    End,
    /// Poll again: the inner stream has changed.
    Again,
}

/// A flat map over a fallible source: the inner stream that is being read,
/// if any.
#[derive(Debug)]
pub struct TryFlatMap<U> {
    current: Option<U>,
}

impl<U> TryFlatMap<U> {
    /// The inner stream that is being read, if any.
    pub closed spec fn inner(self) -> Option<U> {
        self.current
    }

    /// A flat map that reads its source first.
    pub fn new() -> (m: TryFlatMap<U>)
        ensures
            m.inner() is None,
    {
        TryFlatMap { current: None }
    }

    /// Whether an inner stream is being read, so that it is to be polled
    /// rather than the source.
    pub fn reading_inner(&self) -> (b: bool)
        ensures
            b == self.inner() is Some,
    {
        self.current.is_some()
    }

    /// The inner stream that is being read.
    pub fn inner_mut(&mut self) -> (s: &mut U)
        requires
            old(self).inner() is Some,
        ensures
            *s == old(self).inner()->Some_0,
            final(self).inner() == Some(*final(s)),
    {
        self.current.as_mut().unwrap()
    }

    /// The step after a poll of the inner stream (where there is one) or of
    /// the source (where there is none): an inner item is yielded; an inner
    /// stream that ends is dropped; a source item becomes the inner stream; a
    /// source error is yielded; the end of the source ends the flat map.
    pub fn step<I, E>(&mut self, polled: FlatMapPoll<I, U, E>) -> (step: FlatMapStep<I, E>)
        requires
            old(self).inner() is Some <==> polled is Inner,
        ensures
            match polled {
                FlatMapPoll::Inner(Some(item)) => step == FlatMapStep::<I, E>::Yield(item)
                    && final(self).inner() == old(self).inner(),
                FlatMapPoll::Inner(None) => step is Again && final(self).inner() is None,
                FlatMapPoll::Source(Some(Ok(u))) => step is Again && final(self).inner() == Some(
                    u,
                ),
                FlatMapPoll::Source(Some(Err(e))) => step == FlatMapStep::<I, E>::Fail(e)
                    && final(self).inner() is None,
                FlatMapPoll::Source(None) => step is End && final(self).inner() is None,
            },
    {
        match polled {
            FlatMapPoll::Inner(Some(item)) => FlatMapStep::Yield(item),
            FlatMapPoll::Inner(None) => {
                self.current = None;
                FlatMapStep::Again
            },
            FlatMapPoll::Source(Some(Ok(u))) => {
                self.current = Some(u);
                FlatMapStep::Again
            },
            FlatMapPoll::Source(Some(Err(e))) => FlatMapStep::Fail(e),
            FlatMapPoll::Source(None) => FlatMapStep::End,
        }
    }
}

/// What a selecting flat map does after polling one inner stream.
pub enum ScanStep<I> {
    /// Yield this item, and ask to be polled again at once.
    Yield(I),
    /// Poll the inner stream at this index next.
    Continue(usize),
}

/// A flat map over a fallible source that reads all of its inner streams at
/// once, yielding whichever item comes first.
#[derive(Debug)]
pub struct TryFlatMapSelect<U> {
    source_finished: bool,
    streams: Vec<U>,
}

impl<U> TryFlatMapSelect<U> {
    /// The inner streams that are being read.
    pub closed spec fn inner(self) -> Seq<U> {
        self.streams@
    }

    /// Whether the source has ended.
    pub closed spec fn finished(self) -> bool {
        self.source_finished
    }

    /// A selecting flat map whose source has not been polled yet.
    pub fn new() -> (m: TryFlatMapSelect<U>)
        ensures
            m.inner() == Seq::<U>::empty(),
            !m.finished(),
    {
        TryFlatMapSelect { source_finished: false, streams: Vec::new() }
    }

    /// Whether the source has ended, so that it is not polled again.
    pub fn source_finished(&self) -> (b: bool)
        ensures
            b == self.finished(),
    {
        self.source_finished
    }

    /// The number of inner streams being read.
    pub fn len(&self) -> (n: usize)
        ensures
            n == self.inner().len(),
    {
        self.streams.len()
    }

    /// The inner stream at index `i`.
    pub fn stream_mut(&mut self, i: usize) -> (s: &mut U)
        requires
            i < old(self).inner().len(),
        ensures
            *s == old(self).inner()[i as int],
            final(self).inner() == old(self).inner().update(i as int, *final(s)),
            final(self).finished() == old(self).finished(),
    {
        &mut self.streams[i]
    }

    /// What follows a poll of the source that was ready: a new inner stream
    /// is read from then on; an error is to be yielded at once; the end of
    /// the source is noted.
    pub fn source_polled<E>(&mut self, polled: Option<Result<U, E>>) -> (r: Option<E>)
        requires
            !old(self).finished(),
        ensures
            match polled {
                Some(Ok(u)) => r is None && final(self).inner() == old(self).inner().push(u)
                    && !final(self).finished(),
                Some(Err(e)) => r == Some(e) && final(self).inner() == old(self).inner()
                    && !final(self).finished(),
                None => r is None && final(self).inner() == old(self).inner()
                    && final(self).finished(),
            },
    {
        match polled {
            Some(Ok(u)) => {
                self.streams.push(u);
                None
            },
            Some(Err(e)) => Some(e),
            None => {
                self.source_finished = true;
                None
            },
        }
    }

    /// What follows a poll of the inner stream at `i`: an item is yielded; a
    /// stream that ended is dropped, the last stream taking its place, which
    /// is polled next; a stream that is not ready is passed over.
    pub fn stream_polled<I>(&mut self, i: usize, polled: Option<Option<I>>) -> (step: ScanStep<I>)
        requires
            i < old(self).inner().len(),
        ensures
            final(self).finished() == old(self).finished(),
            match polled {
                Some(Some(item)) => step == ScanStep::Yield(item) && final(self).inner() == old(
                    self,
                ).inner(),
                Some(None) => step == ScanStep::<I>::Continue(i) && final(self).inner() == old(
                    self,
                ).inner().update(i as int, old(self).inner().last()).drop_last(),
                None => step == ScanStep::<I>::Continue((i + 1) as usize) && final(self).inner()
                    == old(self).inner(),
            },
    {
        match polled {
            Some(Some(item)) => ScanStep::Yield(item),
            Some(None) => {
                self.streams.swap_remove(i);
                ScanStep::Continue(i)
            },
            None => {
                assert(i < self.streams.len());
                ScanStep::Continue(i + 1)
            },
        }
    }

    /// Whether the flat map is over: the source has ended and no inner stream
    /// is left.
    pub fn exhausted(&self) -> (b: bool)
        ensures
            b == (self.finished() && self.inner().len() == 0),
    {
        self.source_finished && self.streams.len() == 0
    }
}

/// One move of a run of a selecting flat map, as its driver sees it.
pub enum SelectMove<U, I, E> {
    /// The source yielded this inner stream (`source_polled`).
    SourceItem(U),
    /// The source failed with this error, which is yielded (`source_polled`).
    SourceError(E),
    /// The inner stream at this index yielded this item, which is yielded,
    /// and is now the third field (`stream_mut`, then `stream_polled`).
    InnerItem(usize, I, U),
    /// The inner stream at this index ended and is dropped (`stream_polled`).
    InnerEnd(usize),
}

/// The items that the inner streams `streams` are still to yield, where
/// `rest` gives the items that a stream is still to yield.
pub open spec fn pending<U, I>(streams: Seq<U>, rest: spec_fn(U) -> Seq<I>) -> Multiset<I>
    decreases streams.len(),
{
    if streams.len() == 0 {
        Multiset::empty()
    } else {
        pending(streams.drop_last(), rest).add(rest(streams.last()).to_multiset())
    }
}

/// The items of the inner streams that the source yields in a run.
pub open spec fn offered_items<U, I, E>(moves: Seq<SelectMove<U, I, E>>, rest: spec_fn(U) -> Seq<I>) -> Multiset<I>
    decreases moves.len(),
{
    if moves.len() == 0 {
        Multiset::empty()
    } else {
        let more = offered_items(moves.drop_first(), rest);
        match moves[0] {
            SelectMove::SourceItem(u) => rest(u).to_multiset().add(more),
            _ => more,
        }
    }
}

/// The errors that the source yields in a run.
pub open spec fn offered_errors<U, I, E>(moves: Seq<SelectMove<U, I, E>>) -> Multiset<E>
    decreases moves.len(),
{
    if moves.len() == 0 {
        Multiset::empty()
    } else {
        let more = offered_errors(moves.drop_first());
        match moves[0] {
            SelectMove::SourceError(e) => more.insert(e),
            _ => more,
        }
    }
}

/// The inner streams after a run of moves from `streams`, with the items
/// and the errors yielded, as `source_polled`, `stream_mut` and
/// `stream_polled` make them; `None` where a move does not fit: an index
/// outside the streams, an item that the stream was not to yield next, or an
/// end of a stream that still had items.
pub open spec fn select_run<U, I, E>(
    streams: Seq<U>,
    moves: Seq<SelectMove<U, I, E>>,
    rest: spec_fn(U) -> Seq<I>,
) -> Option<(Seq<U>, Multiset<I>, Multiset<E>)>
    decreases moves.len(),
{
    if moves.len() == 0 {
        Some((streams, Multiset::empty(), Multiset::empty()))
    } else {
        let tail = moves.drop_first();
        match moves[0] {
            SelectMove::SourceItem(u) => select_run(streams.push(u), tail, rest),
            SelectMove::SourceError(e) => match select_run(streams, tail, rest) {
                Some((s, y, es)) => Some((s, y, es.insert(e))),
                None => None,
            },
            SelectMove::InnerItem(i, item, u) => if i < streams.len() && rest(streams[i as int])
                == seq![item] + rest(u) {
                match select_run(streams.update(i as int, u), tail, rest) {
                    Some((s, y, es)) => Some((s, y.insert(item), es)),
                    None => None,
                }
            } else {
                None
            },
            SelectMove::InnerEnd(i) => if i < streams.len() && rest(streams[i as int]).len()
                == 0 {
                select_run(streams.update(i as int, streams.last()).drop_last(), tail, rest)
            } else {
                None
            },
        }
    }
}

/// Replacing one inner stream changes what is pending by what the two
/// streams are still to yield.
proof fn lemma_pending_update<U, I>(streams: Seq<U>, i: int, u: U, rest: spec_fn(U) -> Seq<I>)
    requires
        0 <= i < streams.len(),
    ensures
        pending(streams.update(i, u), rest).add(rest(streams[i]).to_multiset()) == pending(
            streams,
            rest,
        ).add(rest(u).to_multiset()),
    decreases streams.len(),
{
    broadcast use vstd::multiset::group_multiset_axioms;

    let t = streams.update(i, u);
    let a = rest(streams[i]).to_multiset();
    let b = rest(u).to_multiset();
    let pt = pending(t.drop_last(), rest);
    let ps = pending(streams.drop_last(), rest);
    assert(pending(t, rest) == pt.add(rest(t.last()).to_multiset()));
    assert(pending(streams, rest) == ps.add(rest(streams.last()).to_multiset()));
    if i == streams.len() - 1 {
        assert(t.drop_last() =~= streams.drop_last());
        assert(t.last() == u);
        assert(streams.last() == streams[i]);
        assert(pending(t, rest).add(a) =~= pending(streams, rest).add(b));
    } else {
        let sd = streams.drop_last();
        assert(t.drop_last() =~= sd.update(i, u));
        assert(t.last() == streams.last());
        assert(sd[i] == streams[i]);
        lemma_pending_update(sd, i, u, rest);
        assert(pt.add(a) == ps.add(b));
        assert(pending(t, rest).add(a) =~= pending(streams, rest).add(b)) by {
            assert forall|v: I| #[trigger] pending(t, rest).add(a).count(v) == pending(
                streams,
                rest,
            ).add(b).count(v) by {
                assert(pt.add(a).count(v) == ps.add(b).count(v));
            }
        }
    }
}

/// A selecting flat map yields the union of its inner streams: after any
/// run of moves that fit, the items yielded together with those its inner
/// streams are still to yield are those they were to yield before together
/// with the items of every inner stream that the source yielded, and the
/// errors yielded are the source's errors. So a run that starts without
/// inner streams and ends exhausted has yielded exactly the items of the
/// inner streams that the source yielded, and each source error once.
pub proof fn lemma_select_yields_union<U, I, E>(
    streams: Seq<U>,
    moves: Seq<SelectMove<U, I, E>>,
    rest: spec_fn(U) -> Seq<I>,
)
    requires
        select_run(streams, moves, rest) is Some,
    ensures
        ({
            let (after, items, errors) = select_run(streams, moves, rest)->Some_0;
            &&& items.add(pending(after, rest)) == pending(streams, rest).add(
                offered_items(moves, rest),
            )
            &&& errors == offered_errors(moves)
        }),
    decreases moves.len(),
{
    broadcast use vstd::multiset::group_multiset_axioms, vstd::multiset::group_multiset_properties;

    if moves.len() == 0 {
        assert(Multiset::<I>::empty().add(pending(streams, rest)) =~= pending(streams, rest).add(
            Multiset::empty(),
        ));
    } else {
        let tail = moves.drop_first();
        match moves[0] {
            SelectMove::SourceItem(u) => {
                lemma_select_yields_union(streams.push(u), tail, rest);
                assert(streams.push(u).drop_last() =~= streams);
                let (after, items, errors) = select_run(streams, moves, rest)->Some_0;
                assert(items.add(pending(after, rest)) =~= pending(streams, rest).add(
                    offered_items(moves, rest),
                ));
            },
            SelectMove::SourceError(e) => {
                lemma_select_yields_union(streams, tail, rest);
            },
            SelectMove::InnerItem(i, item, u) => {
                assert(i < streams.len() && rest(streams[i as int]) == seq![item] + rest(u));
                let s2 = streams.update(i as int, u);
                lemma_select_yields_union(s2, tail, rest);
                lemma_pending_update(streams, i as int, u, rest);
                assert(seq![item] + rest(u) =~= rest(u).insert(0, item));
                vstd::seq_lib::to_multiset_insert(rest(u), 0, item);
                let (after, items, errors) = select_run(streams, moves, rest)->Some_0;
                let (a2, i2, e2) = select_run(s2, tail, rest)->Some_0;
                assert(after == a2 && items == i2.insert(item) && errors == e2);
                assert(offered_items(moves, rest) == offered_items(tail, rest));
                let ms = rest(u).to_multiset();
                let off = offered_items(moves, rest);
                assert(pending(s2, rest).add(ms.insert(item)) == pending(streams, rest).add(ms));
                assert forall|v: I| #[trigger] items.add(pending(after, rest)).count(v) == pending(
                    streams,
                    rest,
                ).add(off).count(v) by {
                    assert(i2.add(pending(a2, rest)).count(v) == pending(s2, rest).add(off).count(
                        v,
                    ));
                    assert(pending(s2, rest).add(ms.insert(item)).count(v) == pending(
                        streams,
                        rest,
                    ).add(ms).count(v));
                }
                assert(items.add(pending(after, rest)) =~= pending(streams, rest).add(off));
            },
            SelectMove::InnerEnd(i) => {
                assert(i < streams.len() && rest(streams[i as int]).len() == 0);
                let t = streams.update(i as int, streams.last());
                lemma_select_yields_union(t.drop_last(), tail, rest);
                lemma_pending_update(streams, i as int, streams.last(), rest);
                assert(rest(streams[i as int]).to_multiset() =~= Multiset::empty()) by {
                    broadcast use vstd::seq_lib::group_to_multiset_ensures;

                    assert(rest(streams[i as int]).to_multiset().len() == 0);
                }
                assert(t.last() == streams.last());
                let c = rest(streams.last()).to_multiset();
                assert(pending(t, rest) == pending(t.drop_last(), rest).add(c));
                assert forall|v: I| #[trigger] pending(t.drop_last(), rest).count(v) == pending(
                    streams,
                    rest,
                ).count(v) by {
                    assert(pending(t, rest).add(rest(streams[i as int]).to_multiset()).count(v)
                        == pending(streams, rest).add(c).count(v));
                }
                assert(pending(t.drop_last(), rest) =~= pending(streams, rest));
            },
        }
    }
}

} // verus!
