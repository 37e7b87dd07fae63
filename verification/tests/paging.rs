use paint::links::{header_sliceable, pagination_readable};
use paint::pagination::uri_header_sliceable;
use paint::paging::links_readable_in;
use hyper::header::{HeaderMap, HeaderValue, LINK};
use paint::error::Error;
use paint::links::{self, Pagination};
use paint::paging::{
    ItemsOutput, Items, PageOutput, PagePoll, PageStart, PageState, THROTTLE_DELAY_MILLIS,
};
use paint::pagination::PaginationLinks;

fn uri(s: &str) -> hyper::Uri {
    s.parse().unwrap()
}

fn with_link(value: &str) -> HeaderMap {
    let mut h = HeaderMap::new();
    h.insert(LINK, HeaderValue::from_str(value).unwrap());
    h
}

#[test]
fn ok_page_with_next_link_requests_it() {
    let h = with_link("<https://c.test/a?page=2>; rel=\"next\"");
    let step = PageState::AwaitingResponse { uri: uri("https://c.test/a?page=1") }
        .step(PagePoll::Response { status: 200, headers: &h, body: hyper::Body::from("[1]") });
    match &step.output {
        PageOutput::Page(body) => assert_eq!(hyper::body::HttpBody::size_hint(body).exact(), Some(3)),
        _ => panic!("expected the page"),
    }
    assert_eq!(step.start, PageStart::Request);
    assert!(!step.wake);
    match step.state {
        PageState::AwaitingResponse { uri: u } => assert_eq!(u, uri("https://c.test/a?page=2")),
        _ => panic!("expected a request for the next page"),
    }
}

#[test]
fn ok_page_without_next_link_finishes() {
    let h = with_link("<https://c.test/a?page=1>; rel=\"first\"");
    let step = PageState::AwaitingResponse { uri: uri("https://c.test/a") }
        .step(PagePoll::Response { status: 200, headers: &h, body: hyper::Body::empty() });
    assert!(matches!(step.output, PageOutput::Page(_)));
    assert!(matches!(step.state, PageState::Finished));
    assert_eq!(step.start, PageStart::Nothing);
}

#[test]
fn ok_page_without_links_header_fails() {
    let h = HeaderMap::new();
    let step = PageState::AwaitingResponse { uri: uri("https://c.test/a") }
        .step(PagePoll::Response { status: 200, headers: &h, body: hyper::Body::empty() });
    assert!(matches!(step.output, PageOutput::Failure(Error::MissingLinksHeader)));
    assert!(matches!(step.state, PageState::Finished));
}

#[test]
fn throttled_request_waits_and_retries() {
    let h = HeaderMap::new();
    let step = PageState::AwaitingResponse { uri: uri("https://c.test/a") }
        .step(PagePoll::Response { status: 403, headers: &h, body: hyper::Body::empty() });
    assert!(matches!(step.output, PageOutput::Pending));
    assert_eq!(step.start, PageStart::Timer { millis: THROTTLE_DELAY_MILLIS });
    assert_eq!(THROTTLE_DELAY_MILLIS, 2000);
    assert!(step.wake);
    let waiting = step.state.step(PagePoll::Pending);
    assert!(matches!(waiting.output, PageOutput::Pending));
    assert!(!waiting.wake);
    let retry = waiting.state.step(PagePoll::TimerFired);
    assert!(matches!(retry.output, PageOutput::Pending));
    assert_eq!(retry.start, PageStart::Request);
    assert!(retry.wake);
    match retry.state {
        PageState::AwaitingResponse { uri: u } => assert_eq!(u, uri("https://c.test/a")),
        _ => panic!("expected the request to be sent again"),
    }
}

#[test]
fn unauthorized_and_unknown_statuses_fail() {
    let h = HeaderMap::new();
    let step = PageState::AwaitingResponse { uri: uri("https://c.test/a") }
        .step(PagePoll::Response { status: 401, headers: &h, body: hyper::Body::empty() });
    assert!(matches!(step.output, PageOutput::Failure(Error::Unauthorized)));
    assert!(matches!(step.state, PageState::Finished));
    let step = PageState::AwaitingResponse { uri: uri("https://c.test/a") }
        .step(PagePoll::Response { status: 500, headers: &h, body: hyper::Body::empty() });
    assert!(matches!(step.output, PageOutput::Failure(Error::UnknownHttpStatus { code: 500, .. })));
}

#[test]
fn unknown_status_keeps_the_response_headers() {
    let h = with_link("<https://c.test/b>; rel=\"next\"");
    let step = PageState::AwaitingResponse { uri: uri("https://c.test/a") }
        .step(PagePoll::Response { status: 418, headers: &h, body: hyper::Body::from("teapot") });
    match step.output {
        PageOutput::Failure(Error::UnknownHttpStatus { code, headers, body }) => {
            assert_eq!(code, 418);
            assert_eq!(headers, h);
            assert_eq!(hyper::body::HttpBody::size_hint(&body).exact(), Some(6));
        }
        _ => panic!("expected an unknown status"),
    }
    assert!(matches!(step.state, PageState::Finished));
    assert_eq!(step.start, PageStart::Nothing);
}

#[test]
fn pending_response_waits() {
    let step = PageState::AwaitingResponse { uri: uri("https://c.test/a") }.step(PagePoll::Pending);
    assert!(matches!(step.output, PageOutput::Pending));
    assert_eq!(step.start, PageStart::Nothing);
    assert!(matches!(step.state, PageState::AwaitingResponse { .. }));
}

#[test]
fn finished_walk_ends() {
    let step = PageState::Finished.step(PagePoll::Pending);
    assert!(matches!(step.output, PageOutput::End));
    assert!(matches!(step.state, PageState::Finished));
}

#[test]
fn links_from_headers() {
    let h = with_link("<https://c.test/a?page=3>; rel=\"last\", <https://c.test/a?page=2>; rel=\"next\"");
    let links = PaginationLinks::from_headers(&h).unwrap();
    assert_eq!(links.next().unwrap(), &uri("https://c.test/a?page=2"));
    assert_eq!(links.last().unwrap(), &uri("https://c.test/a?page=3"));
    assert!(matches!(links.first(), Err(Error::MissingPaginationLink("first"))));
    assert!(matches!(links.previous(), Err(Error::MissingPaginationLink("previous"))));
    assert!(matches!(links.current(), Err(Error::MissingPaginationLink("current"))));
}

#[test]
fn links_header_missing_or_not_text() {
    assert!(matches!(PaginationLinks::from_headers(&HeaderMap::new()), Err(Error::MissingLinksHeader)));
    let mut h = HeaderMap::new();
    h.insert(LINK, HeaderValue::from_bytes("<é>; rel=\"next\"".as_bytes()).unwrap());
    match PaginationLinks::from_headers(&h) {
        Err(Error::MalformedLinkHeader { src, message }) => {
            assert_eq!(src, "<é>; rel=\"next\"");
            assert_eq!(message, "contained invalid characters");
        }
        other => panic!("unexpected {:?}", other),
    }
}

#[test]
fn borrowed_links_from_headers() {
    let h = with_link("<https://c.test/b>; rel=\"prev\"");
    let p = Pagination::from_headers(&h).unwrap();
    assert_eq!(p.previous().unwrap(), "https://c.test/b");
    assert!(matches!(p.next(), Err(links::Error::MissingLink("next"))));
    assert!(matches!(Pagination::from_headers(&HeaderMap::new()), Err(links::Error::MissingLinksHeader)));
}

#[test]
fn malformed_links() {
    match PaginationLinks::from_links_header("<https://c.test/a> rel=\"next\"") {
        Err(Error::MalformedLinkHeader { src, message }) => {
            assert_eq!(src, "<https://c.test/a> rel=\"next\"");
            assert_eq!(message, "missing semicolon");
        }
        other => panic!("unexpected {:?}", other),
    }
    match PaginationLinks::from_links_header("<https://c.test/a>;  rel") {
        Err(Error::MalformedLinkHeader { src, message }) => {
            assert_eq!(src, "rel");
            assert_eq!(message, "missing relevance");
        }
        other => panic!("unexpected {:?}", other),
    }
    assert!(matches!(
        PaginationLinks::from_links_header("<http://a b>; rel=\"next\""),
        Err(Error::Http(_))
    ));
}

#[test]
fn later_link_replaces_earlier() {
    let p = Pagination::from_links_header("<a>; rel=\"next\", <b>; rel=\"next\"").unwrap();
    assert_eq!(p.next, Some("b"));
}

#[test]
fn items_yield_each_page_in_order() {
    let mut items: Items<u32> = Items::new();
    assert!(!items.reading());
    assert_eq!(items.pop_ready(), None);
    match items.page_polled::<&str, ()>(Some(Ok("page"))) {
        ItemsOutput::Read(p) => assert_eq!(p, "page"),
        _ => panic!("expected the page to be read"),
    }
    assert!(items.reading());
    match items.page_read::<&str, ()>(Ok(vec![1, 2, 3])) {
        ItemsOutput::Yield(x) => assert_eq!(x, 1),
        _ => panic!("expected the first item"),
    }
    assert!(!items.reading());
    assert_eq!(items.pop_ready(), Some(2));
    assert_eq!(items.pop_ready(), Some(3));
    assert_eq!(items.pop_ready(), None);
    assert!(matches!(items.page_polled::<&str, ()>(None), ItemsOutput::End));
}

#[test]
fn items_of_two_pages_come_in_page_order() {
    let mut items: Items<u32> = Items::new();
    let mut out = Vec::new();
    for page in [vec![5, 1], vec![9, 0, 3]] {
        assert!(matches!(items.page_polled::<(), ()>(Some(Ok(()))), ItemsOutput::Read(())));
        if let ItemsOutput::Yield(x) = items.page_read::<(), ()>(Ok(page)) {
            out.push(x);
        }
        while let Some(x) = items.pop_ready() {
            out.push(x);
        }
    }
    assert_eq!(out, vec![5, 1, 9, 0, 3]);
}

#[test]
fn items_empty_page_ends_and_errors_pass_through() {
    let mut items: Items<u32> = Items::new();
    assert!(matches!(items.page_polled::<(), &str>(Some(Err("boom"))), ItemsOutput::Fail("boom")));
    let _ = items.page_polled::<(), &str>(Some(Ok(())));
    assert!(matches!(items.page_read::<(), &str>(Ok(vec![])), ItemsOutput::End));
    let _ = items.page_polled::<(), &str>(Some(Ok(())));
    assert!(matches!(items.page_read::<(), &str>(Err("bad json")), ItemsOutput::Fail("bad json")));
    assert!(items.reading());
}

#[test]
fn sliceable_headers() {
    assert!(header_sliceable("<a>; rel=\"next\""));
    assert!(!header_sliceable("x; rel=\"next\""));
    assert!(!header_sliceable("<a>; rel=x"));
    // a malformed piece stops the parse before a later one would be cut
    assert!(header_sliceable("<a> rel, x;y=z"));
    assert!(uri_header_sliceable("<https://c.test/a>; rel=\"next\""));
    assert!(!uri_header_sliceable("<https://c.test/a>; rel=\"next\", x; rel=\"x\""));
    // a URI that does not parse stops the parse first
    assert!(uri_header_sliceable("<http://a b>; rel=\"next\", x; rel=\"x\""));
}

#[test]
fn readable_links() {
    assert!(links_readable_in(&HeaderMap::new()));
    assert!(links_readable_in(&with_link("<https://c.test/a>; rel=\"next\"")));
    assert!(!links_readable_in(&with_link("x; rel=\"next\"")));
    let mut h = HeaderMap::new();
    h.insert(LINK, HeaderValue::from_bytes(&[0xff, b'a']).unwrap());
    assert!(!links_readable_in(&h));
    assert!(!pagination_readable(&h));
    assert!(pagination_readable(&with_link("<a>; rel=\"next\"")));
}

#[test]
fn checked_link_parsing() {
    let ok = PaginationLinks::checked_from_links_header("<https://c.test/a>; rel=\"next\"");
    match ok {
        Some(Ok(links)) => assert_eq!(links.next, Some(uri("https://c.test/a"))),
        _ => panic!("expected the links"),
    }
    assert!(PaginationLinks::checked_from_links_header("<https://c.test/a>; rel=\"next\", x; rel=\"x\"").is_none());
    assert!(matches!(
        PaginationLinks::checked_from_links_header("<http://a b>; rel=\"next\""),
        Some(Err(Error::Http(_)))
    ));
    assert!(matches!(PaginationLinks::checked_from_headers(&HeaderMap::new()), Some(Err(Error::MissingLinksHeader))));
    assert!(PaginationLinks::checked_from_headers(&with_link("x; rel=\"next\"")).is_none());
    match PaginationLinks::checked_from_headers(&with_link("<https://c.test/b>; rel=\"last\"")) {
        Some(Ok(links)) => assert_eq!(links.last, Some(uri("https://c.test/b"))),
        _ => panic!("expected the links"),
    }
}

#[test]
fn checked_step_refuses_unreadable_links() {
    let bad = with_link("x; rel=\"next\"");
    match (PageState::AwaitingResponse { uri: uri("https://c.test/a") }).checked_step(PagePoll::Response { status: 200, headers: &bad, body: hyper::Body::empty() }) {
        Err(PageState::AwaitingResponse { uri: u }) => assert_eq!(u, uri("https://c.test/a")),
        _ => panic!("expected the state back"),
    }
    // another status does not read the links
    match (PageState::AwaitingResponse { uri: uri("https://c.test/a") }).checked_step(PagePoll::Response { status: 401, headers: &bad, body: hyper::Body::empty() }) {
        Ok(step) => assert!(matches!(step.output, PageOutput::Failure(Error::Unauthorized))),
        Err(_) => panic!("expected a step"),
    }
}

#[test]
fn refused_request_ends_the_walk() {
    let step = paint::paging::PageStep::request_refused(Error::MissingLinksHeader);
    assert!(matches!(step.state, PageState::Finished));
    assert_eq!(step.start, PageStart::Nothing);
    assert!(matches!(step.output, PageOutput::Failure(Error::MissingLinksHeader)));
    assert!(!step.wake);
}
