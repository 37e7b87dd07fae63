use paint::id::Id;
use paint::resource::ResourceKind;
use paint::socket::update_url;

#[test]
fn update_url_encodes_its_query() {
    assert_eq!(
        update_url("https://canvas.test", Id::new(5), ResourceKind::Course, "2021-01-02T03:04:05Z"),
        "ws://localhost:4210/ebauche/update?canvas=https%3A%2F%2Fcanvas.test&user_id=5&resource_kind=course&since=2021-01-02T03%3A04%3A05Z"
    );
}

#[test]
fn update_url_escapes_spaces_and_other_bytes() {
    assert_eq!(
        update_url("a b/\u{e9}*-._~", Id::new(1200), ResourceKind::Assignment, ""),
        "ws://localhost:4210/ebauche/update?canvas=a+b%2F%C3%A9*-._%7E&user_id=1200&resource_kind=assignment&since="
    );
}
