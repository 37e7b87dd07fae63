//! The decisions of a walk over the pages of a Canvas listing, and of the
//! stream of items that reads each page.
//!
//! The walk is driven from outside: whoever polls it performs the requests and
//! timers that a step asks for and reports back what polling found; the steps
//! here decide what comes next.
use crate::error::Error;
use crate::headers::{clone_headers, link_text, link_unreadable, link_value, str_from_utf8, value_as_bytes, value_text};
use crate::pagination::{links_read, uri_header_sliceable, uri_header_unsliceable, PaginationLinks};
use hyper::header::HeaderMap;
use vstd::prelude::*;

verus! {

/// How long a throttled request waits before it is sent again, in
/// milliseconds.
pub const THROTTLE_DELAY_MILLIS: u64 = 2000;

/// The status code of a successful response.
pub const STATUS_OK: u16 = 200;

/// The status code with which Canvas throttles a request.
pub const STATUS_FORBIDDEN: u16 = 403;

/// The status code of a request whose credentials were refused.
pub const STATUS_UNAUTHORIZED: u16 = 401;

/// Where a walk over pages stands.
#[derive(Debug)]
pub enum PageState {
    /// A request for this URI is under way.
    AwaitingResponse { uri: hyper::Uri },
    /// The request for this URI was throttled; a timer runs before it is sent
    /// again.
    Throttled { uri: hyper::Uri },
    /// No more pages will come.
    Finished,
}

/// What polling the walk's pending work found.
pub enum PagePoll<'h> {
    /// The response or the timer is not ready yet.
    Pending,
    /// The request failed.
    Failed(hyper::Error),
    /// A response arrived with this status code, these headers and this body.
    Response { status: u16, headers: &'h HeaderMap, body: hyper::Body },
    /// The throttling timer ran out.
    TimerFired,
}

/// What to start after a step.
#[derive(Debug, Clone, Copy, PartialEq, Eq, Structural)]
pub enum PageStart {
    /// Nothing.
    Nothing,
    /// A GET request for the URI of the new state.
    Request,
    /// A timer of this many milliseconds.
    Timer { millis: u64 },
}

/// What the walk yields after a step.
#[derive(Debug)]
pub enum PageOutput {
    /// Nothing yet.
    Pending,
    /// The response that arrived, with this body, is the next page.
    Page(hyper::Body),
    /// This error; the walk is over.
    Failure(Error),
    /// The walk is over.
    End,
}

/// The outcome of one step of the walk.
#[derive(Debug)]
pub struct PageStep {
    /// The new state.
    pub state: PageState,
    /// What to start.
    pub start: PageStart,
    /// What to yield.
    pub output: PageOutput,
    /// Whether to ask to be polled again at once.
    pub wake: bool,
}

/// Whether `poll` can come from polling in `state`: a response or a failed
/// request while one is under way, a timer while throttled.
pub open spec fn poll_fits(state: PageState, poll: PagePoll) -> bool {
    match poll {
        PagePoll::Pending => true,
        PagePoll::Failed(_) => state is AwaitingResponse,
        PagePoll::Response { .. } => state is AwaitingResponse,
        PagePoll::TimerFired => state is Throttled,
    }
}

/// Whether the links of a successful response can be read without a panic.
pub open spec fn links_readable(headers: HeaderMap) -> bool {
    &&& !link_unreadable(headers)
    &&& link_text(headers) matches Some(t) ==> !uri_header_unsliceable(t)
}

/// Whether `step` is what follows a successful page with body `body` whose
/// links read as `r`: the page is yielded, and the walk goes on to the `next` link where there is
/// one; where the links do not read, their error ends the walk instead.
pub open spec fn after_page(step: PageStep, r: Result<PaginationLinks, Error>, body: hyper::Body) -> bool {
    match r {
        Ok(links) => {
            &&& step.output == PageOutput::Page(body)
            &&& !step.wake
            &&& match links.next {
                Some(u) => step.state == (PageState::AwaitingResponse { uri: u }) && step.start
                    == PageStart::Request,
                None => step.state is Finished && step.start == PageStart::Nothing,
            }
        },
        Err(e) => {
            &&& step.state is Finished
            &&& step.start == PageStart::Nothing
            &&& step.output == PageOutput::Failure(e)
            &&& !step.wake
        },
    }
}

/// Whether `step` ends the walk with `output`.
pub open spec fn ends_with(step: PageStep, output: PageOutput) -> bool {
    &&& step.state is Finished
    &&& step.start == PageStart::Nothing
    &&& step.output == output
    &&& !step.wake
}

impl PageState {
    /// One step of the walk where it can be taken: the state handed back
    /// unchanged where a successful response's links cannot be read without
    /// a panic (where `step` is not to be called), else what `step` gives.
    pub fn checked_step(self, poll: PagePoll) -> (r: Result<PageStep, PageState>)
        requires
            poll_fits(self, poll),
        ensures
            r is Err <==> (poll matches PagePoll::Response { status, headers, .. } && status
                == STATUS_OK && !links_readable(*headers)),
            r matches Err(s) ==> s == self,
            r matches Ok(step) ==> stepped(self, poll, step),
    {
        let readable = match &poll {
            PagePoll::Response { status, headers, .. } => *status != STATUS_OK || links_readable_in(
                headers,
            ),
            _ => true,
        };
        if readable {
            Ok(self.step(poll))
        } else {
            Err(self)
        }
    }
}

impl PageStep {
    /// What follows when the request that a step starts cannot be sent: the
    /// walk ends, yielding the request's error in place of what the step
    /// would have yielded.
    pub fn request_refused(e: Error) -> (step: PageStep)
        ensures
            ends_with(step, PageOutput::Failure(e)),
    {
        PageStep {
            state: PageState::Finished,
            start: PageStart::Nothing,
            output: PageOutput::Failure(e),
            wake: false,
        }
    }
}

/// Whether `step` leaves `state` as it is and yields nothing.
pub open spec fn waits(step: PageStep, state: PageState) -> bool {
    &&& step.state == state
    &&& step.start == PageStart::Nothing
    &&& step.output is Pending
    &&& !step.wake
}

/// Whether `step` is what follows `state` after `poll`: a `200` response is
/// yielded as a page and its `next` link is requested; a `403` throttles the
/// request, which is sent again when a timer runs out; a `401` and any other
/// status end the walk with an error, as does a failed request or a page
/// whose links do not read.
pub open spec fn stepped(state: PageState, poll: PagePoll, step: PageStep) -> bool {
    match state {
        PageState::Finished => ends_with(step, PageOutput::End),
        PageState::AwaitingResponse { uri } => match poll {
            PagePoll::Pending => waits(step, state),
            PagePoll::Failed(e) => ends_with(step, PageOutput::Failure(Error::Hyper(e))),
            PagePoll::Response { status, headers, body } => if status == STATUS_OK {
                exists|r: Result<PaginationLinks, Error>|
                    #[trigger] links_read(r, *headers) && after_page(step, r, body)
            } else if status == STATUS_FORBIDDEN {
                &&& step.state == (PageState::Throttled { uri })
                &&& step.start == (PageStart::Timer { millis: THROTTLE_DELAY_MILLIS })
                &&& step.output is Pending
                &&& step.wake
            } else if status == STATUS_UNAUTHORIZED {
                ends_with(step, PageOutput::Failure(Error::Unauthorized))
            } else {
                ends_with(
                    step,
                    PageOutput::Failure(
                        Error::UnknownHttpStatus { code: status, headers: *headers, body },
                    ),
                )
            },
            PagePoll::TimerFired => false,
        },
        PageState::Throttled { uri } => match poll {
            PagePoll::TimerFired => {
                &&& step.state == (PageState::AwaitingResponse { uri })
                &&& step.start == PageStart::Request
                &&& step.output is Pending
                &&& step.wake
            },
            PagePoll::Pending => waits(step, state),
            _ => false,
        },
    }
}

/// A walk over pages yields its end only once it is finished: from a state
/// that awaits a response or a throttling timer, no step yields the end.
pub proof fn lemma_end_only_when_finished(state: PageState, poll: PagePoll, step: PageStep)
    requires
        stepped(state, poll, step),
        step.output is End,
    ensures
        state is Finished,
{
}

/// A failed request is never dropped: while a response is awaited, the
/// failure of the request ends the walk and is yielded as its error.
pub proof fn lemma_failed_request_reported(
    uri: hyper::Uri,
    e: hyper::Error,
    step: PageStep,
)
    requires
        stepped(PageState::AwaitingResponse { uri }, PagePoll::Failed(e), step),
    ensures
        step.output == PageOutput::Failure(Error::Hyper(e)),
        step.state is Finished,
        !(step.output is End),
{
}

/// Every step of a walk that has not finished, on any poll, either waits,
/// yields a page, or yields an error that ends the walk; a step that yields
/// an error leaves the walk finished.
pub proof fn lemma_errors_end_the_walk(state: PageState, poll: PagePoll, step: PageStep)
    requires
        stepped(state, poll, step),
        !(state is Finished),
    ensures
        step.output is Pending || step.output is Page || step.output is Failure,
        step.output is Failure ==> step.state is Finished,
{
}

impl PageState {
    /// One step of the walk: from this state and what polling found, the next
    /// state, what to start and what to yield.
    ///
    /// A `200` response is yielded as a page and its `next` link is requested;
    /// a `403` throttles the request, which is sent again when a timer of two
    /// seconds runs out; a `401` and any other status end the walk with an
    /// error, as does a failed request or a page whose links do not read.
    pub fn step(self, poll: PagePoll) -> (step: PageStep)
        requires
            poll_fits(self, poll),
            poll matches PagePoll::Response { status, headers, .. } ==> (status == STATUS_OK
                ==> links_readable(*headers)),
        ensures
            stepped(self, poll, step),
    {
        match self {
            PageState::Finished => PageStep {
                state: PageState::Finished,
                start: PageStart::Nothing,
                output: PageOutput::End,
                wake: false,
            },
            PageState::AwaitingResponse { uri } => match poll {
                PagePoll::Pending => PageStep {
                    state: PageState::AwaitingResponse { uri },
                    start: PageStart::Nothing,
                    output: PageOutput::Pending,
                    wake: false,
                },
                PagePoll::Failed(e) => PageStep {
                    state: PageState::Finished,
                    start: PageStart::Nothing,
                    output: PageOutput::Failure(Error::Hyper(e)),
                    wake: false,
                },
                PagePoll::Response { status, headers, body } => {
                    if status == STATUS_OK {
                        let r = PaginationLinks::from_headers(headers);
                        let step = match r {
                            Ok(links) => match links.next {
                                Some(next) => PageStep {
                                    state: PageState::AwaitingResponse { uri: next },
                                    start: PageStart::Request,
                                    output: PageOutput::Page(body),
                                    wake: false,
                                },
                                None => PageStep {
                                    state: PageState::Finished,
                                    start: PageStart::Nothing,
                                    output: PageOutput::Page(body),
                                    wake: false,
                                },
                            },
                            Err(e) => PageStep {
                                state: PageState::Finished,
                                start: PageStart::Nothing,
                                output: PageOutput::Failure(e),
                                wake: false,
                            },
                        };
                        assert(links_read(r, *headers) && after_page(step, r, body));
                        step
                    } else if status == STATUS_FORBIDDEN {
                        PageStep {
                            state: PageState::Throttled { uri },
                            start: PageStart::Timer { millis: THROTTLE_DELAY_MILLIS },
                            output: PageOutput::Pending,
                            wake: true,
                        }
                    } else if status == STATUS_UNAUTHORIZED {
                        PageStep {
                            state: PageState::Finished,
                            start: PageStart::Nothing,
                            output: PageOutput::Failure(Error::Unauthorized),
                            wake: false,
                        }
                    } else {
                        PageStep {
                            state: PageState::Finished,
                            start: PageStart::Nothing,
                            output: PageOutput::Failure(
                                Error::UnknownHttpStatus {
                                    code: status,
                                    headers: clone_headers(headers),
                                    body,
                                },
                            ),
                            wake: false,
                        }
                    }
                },
                PagePoll::TimerFired => {
                    proof {
                        assert(false);
                    }
                    PageStep {
                        state: PageState::Finished,
                        start: PageStart::Nothing,
                        output: PageOutput::End,
                        wake: false,
                    }
                },
            },
            PageState::Throttled { uri } => match poll {
                PagePoll::TimerFired => PageStep {
                    state: PageState::AwaitingResponse { uri },
                    start: PageStart::Request,
                    output: PageOutput::Pending,
                    wake: true,
                },
                _ => {
                    proof {
                        assert(poll is Pending);
                    }
                    PageStep {
                        state: PageState::Throttled { uri },
                        start: PageStart::Nothing,
                        output: PageOutput::Pending,
                        wake: false,
                    }
                },
            },
        }
    }
}

/// What a stream of items yields after a step.
pub enum ItemsOutput<T, P, E> {
    /// This item; ask to be polled again at once.
    Yield(T),
    /// This error.
    Fail(E),
    /// The stream is over.
    End,
    /// Start reading the items of this page, and ask to be polled again at
    /// once; nothing is yielded yet.
    Read(P),
}

/// The items of a walk over pages: the items of the page read last that are
/// still to come, and whether a page is being read.
#[derive(Debug)]
pub struct Items<T> {
    /// The items still to come, the next one last.
    items: Vec<T>,
    /// Whether a page is being read.
    reading: bool,
}

impl<T> Items<T> {
    /// The items still to come, in the order in which they come.
    pub closed spec fn queue(self) -> Seq<T> {
        self.items@.reverse()
    }

    /// Whether a page is being read, rather than awaited.
    pub closed spec fn is_reading(self) -> bool {
        self.reading
    }

    /// A stream that awaits its first page.
    pub fn new() -> (s: Items<T>)
        ensures
            s.queue() == Seq::<T>::empty(),
            !s.is_reading(),
    {
        let s = Items { items: Vec::new(), reading: false };
        assert(s.queue() =~= Seq::<T>::empty());
        s
    }

    /// Whether a page is being read, rather than awaited.
    pub fn reading(&self) -> (b: bool)
        ensures
            b == self.is_reading(),
    {
        self.reading
    }

    /// The next item of the page read last, if one is still to come.
    pub fn pop_ready(&mut self) -> (r: Option<T>)
        ensures
            final(self).is_reading() == old(self).is_reading(),
            old(self).queue().len() == 0 ==> r is None && final(self).queue() == old(self).queue(),
            old(self).queue().len() > 0 ==> r == Some(old(self).queue()[0]) && final(self).queue()
                == old(self).queue().drop_first(),
    {
        let r = self.items.pop();
        proof {
            if old(self).items@.len() > 0 {
                assert(self.queue() =~= old(self).queue().drop_first());
            }
        }
        r
    }

    /// What follows when reading a page has finished with `read`, while no
    /// item is left: its first item, with the rest still to come, or the end
    /// of the stream where the page is empty; a failed read yields its error.
    pub fn page_read<P, E>(&mut self, read: Result<Vec<T>, E>) -> (out: ItemsOutput<T, P, E>)
        requires
            old(self).is_reading(),
            old(self).queue().len() == 0,
        ensures
            match read {
                Ok(page) => {
                    &&& !final(self).is_reading()
                    &&& page@.len() == 0 ==> out is End && final(self).queue() == Seq::<T>::empty()
                    &&& page@.len() > 0 ==> out == ItemsOutput::<T, P, E>::Yield(page@[0])
                        && final(self).queue() == page@.drop_first()
                },
                Err(e) => out == ItemsOutput::<T, P, E>::Fail(e) && final(self).is_reading()
                    && final(self).queue() == Seq::<T>::empty(),
            },
    {
        match read {
            Err(e) => ItemsOutput::Fail(e),
            Ok(page) => {
                let ghost whole = page@;
                self.items = reversed(page);
                self.reading = false;
                assert(self.queue() =~= whole);
                match self.items.pop() {
                    Some(item) => {
                        assert(self.queue() =~= whole.drop_first());
                        ItemsOutput::Yield(item)
                    },
                    None => ItemsOutput::End,
                }
            },
        }
    }

    /// What follows when the walk over pages has yielded `page`, while no item
    /// is left and no page is being read: a page is read, an error is
    /// yielded, and the end of the walk ends the stream.
    pub fn page_polled<P, E>(&mut self, page: Option<Result<P, E>>) -> (out: ItemsOutput<T, P, E>)
        requires
            !old(self).is_reading(),
            old(self).queue().len() == 0,
        ensures
            final(self).queue() == old(self).queue(),
            match page {
                Some(Ok(p)) => out == ItemsOutput::<T, P, E>::Read(p) && final(self).is_reading(),
                Some(Err(e)) => out == ItemsOutput::<T, P, E>::Fail(e) && !final(self).is_reading(),
                None => out is End && !final(self).is_reading(),
            },
    {
        match page {
            Some(Ok(p)) => {
                self.reading = true;
                ItemsOutput::Read(p)
            },
            Some(Err(e)) => ItemsOutput::Fail(e),
            None => ItemsOutput::End,
        }
    }
}

/// The items of the pages that a run reads, page after page; a run is a
/// sequence of moves, each a request for the next item (`None`) or a page
/// read (`Some` with the page's items).
pub open spec fn page_items<T>(moves: Seq<Option<Seq<T>>>) -> Seq<T>
    decreases moves.len(),
{
    if moves.len() == 0 {
        Seq::empty()
    } else {
        let first = match moves[0] {
            Some(page) => page,
            None => Seq::empty(),
        };
        first + page_items(moves.drop_first())
    }
}

/// The items yielded and the items still to come after a run of moves of a
/// stream of items, from `yielded` and `queue`, as `pop_ready` and
/// `page_read` make them; `None` where a page is read while items are still
/// to come, which `page_read` does not allow.
pub open spec fn items_run<T>(yielded: Seq<T>, queue: Seq<T>, moves: Seq<Option<Seq<T>>>) -> Option<
    (Seq<T>, Seq<T>),
>
    decreases moves.len(),
{
    if moves.len() == 0 {
        Some((yielded, queue))
    } else {
        match moves[0] {
            None => if queue.len() > 0 {
                items_run(yielded.push(queue[0]), queue.drop_first(), moves.drop_first())
            } else {
                items_run(yielded, queue, moves.drop_first())
            },
            Some(page) => if queue.len() > 0 {
                None
            } else if page.len() == 0 {
                items_run(yielded, Seq::empty(), moves.drop_first())
            } else {
                items_run(yielded.push(page[0]), page.drop_first(), moves.drop_first())
            },
        }
    }
}

/// A stream of items yields the items of its pages in page order: after any
/// run of moves, the items yielded followed by those still to come are the
/// items yielded and to come before, followed by the items of the pages read,
/// page after page.
pub proof fn lemma_items_in_page_order<T>(
    yielded: Seq<T>,
    queue: Seq<T>,
    moves: Seq<Option<Seq<T>>>,
)
    requires
        items_run(yielded, queue, moves) is Some,
    ensures
        ({
            let (y, q) = items_run(yielded, queue, moves)->Some_0;
            y + q == yielded + queue + page_items(moves)
        }),
    decreases moves.len(),
{
    if moves.len() > 0 {
        let rest = moves.drop_first();
        match moves[0] {
            None => {
                if queue.len() > 0 {
                    lemma_items_in_page_order(yielded.push(queue[0]), queue.drop_first(), rest);
                    assert(yielded.push(queue[0]) + queue.drop_first() =~= yielded + queue);
                } else {
                    lemma_items_in_page_order(yielded, queue, rest);
                }
                assert(page_items(moves) =~= page_items(rest));
            },
            Some(page) => {
                assert(page_items(moves) == page + page_items(rest));
                assert(yielded + queue + page_items(moves) =~= yielded + queue + page + page_items(
                    rest,
                ));
                if page.len() == 0 {
                    lemma_items_in_page_order(yielded, Seq::empty(), rest);
                    assert(yielded + Seq::<T>::empty() =~= yielded + queue + page);
                } else {
                    lemma_items_in_page_order(yielded.push(page[0]), page.drop_first(), rest);
                    assert(yielded.push(page[0]) + page.drop_first() =~= yielded + queue + page);
                }
            },
        }
    } else {
        assert(page_items(moves) =~= Seq::<T>::empty());
        assert(yielded + queue + page_items(moves) =~= yielded + queue);
    }
}

/// The elements of `v` in reverse order.
pub(crate) fn reversed<T>(v: Vec<T>) -> (r: Vec<T>)
    ensures
        r@ == v@.reverse(),
{
    let ghost whole = v@;
    let mut rest = v;
    let mut items: Vec<T> = Vec::new();
    while rest.len() > 0
        invariant
            rest@ == whole.take(rest.len() as int),
            items@ == whole.skip(rest.len() as int).reverse(),
            rest.len() <= whole.len(),
        decreases rest.len(),
    {
        let x = rest.pop().unwrap();
        items.push(x);
        assert(rest@ =~= whole.take(rest.len() as int));
        assert(items@ =~= whole.skip(rest.len() as int).reverse());
    }
    assert(whole.skip(0) =~= whole);
    items
}

/// Whether the links of a successful response with these headers can be
/// read without a panic: a `Link` header that is not visible ASCII is UTF-8,
/// and one that is can be cut where its format asks.
pub fn links_readable_in(headers: &HeaderMap) -> (b: bool)
    ensures
        b == links_readable(*headers),
{
    match link_value(headers) {
        None => true,
        Some(v) => match value_text(v) {
            Ok(text) => uri_header_sliceable(text),
            Err(_) => str_from_utf8(value_as_bytes(v)).is_ok(),
        },
    }
}

} // verus!
