use paint::links::Pagination;
use paint::pagination::PaginationLinks;
use std::convert::TryInto;

const HEADER: &str = "<https://canvas.instructure.com/api/v1/courses?page=2>; rel=\"current\", <https://canvas.instructure.com/api/v1/courses?page=3>; rel=\"next\", <https://canvas.instructure.com/api/v1/courses?page=1>; rel=\"prev\", <https://canvas.instructure.com/api/v1/courses?page=1>; rel=\"first\", <https://canvas.instructure.com/api/v1/courses?page=3>; rel=\"last\"";

#[test]
fn client_parse_from_header() {
    let parsed = match Pagination::from_links_header(HEADER) {
        Ok(p) => p,
        Err(e) => panic!("{:?}", e),
    };
    assert_eq!(
        parsed,
        Pagination {
            current: Some("https://canvas.instructure.com/api/v1/courses?page=2"),
            next: Some("https://canvas.instructure.com/api/v1/courses?page=3"),
            previous: Some("https://canvas.instructure.com/api/v1/courses?page=1"),
            first: Some("https://canvas.instructure.com/api/v1/courses?page=1"),
            last: Some("https://canvas.instructure.com/api/v1/courses?page=3"),
        }
    )
}

#[test]
fn pagination_parse_from_header() {
    let parsed = match PaginationLinks::from_links_header(HEADER) {
        Ok(p) => p,
        Err(e) => panic!("{:?}", e),
    };
    assert_eq!(
        parsed,
        PaginationLinks {
            current: Some("https://canvas.instructure.com/api/v1/courses?page=2".try_into().unwrap()),
            next: Some("https://canvas.instructure.com/api/v1/courses?page=3".try_into().unwrap()),
            previous: Some("https://canvas.instructure.com/api/v1/courses?page=1".try_into().unwrap()),
            first: Some("https://canvas.instructure.com/api/v1/courses?page=1".try_into().unwrap()),
            last: Some("https://canvas.instructure.com/api/v1/courses?page=3".try_into().unwrap()),
        }
    )
}
