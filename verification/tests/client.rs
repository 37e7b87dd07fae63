use paint::client::{bearer_authorization, Auth, Client, ClientBuilder, RequestBuilder};

#[test]
fn builder_defaults() {
    let c = ClientBuilder::new().build();
    assert_eq!(c.base_uri, "https://canvas.instructure.com");
    assert_eq!(c.auth, None);
    let d = ClientBuilder::default().build();
    assert_eq!(d.base_uri, c.base_uri);
    assert_eq!(Client::builder().build().base_uri, c.base_uri);
}

#[test]
fn builder_sets_auth_and_base_url() {
    let c = ClientBuilder::new()
        .with_base_url("https://school.instructure.com")
        .with_auth(Auth::Bearer("tok".to_string()))
        .build();
    assert_eq!(c.base_uri, "https://school.instructure.com");
    assert_eq!(c.auth, Some(Auth::Bearer("tok".to_string())));
    let c = ClientBuilder::new()
        .auth(Auth::Bearer("a".to_string()))
        .base_url("http://localhost".to_string())
        .auth(Auth::Bearer("b".to_string()))
        .build();
    assert_eq!(c.base_uri, "http://localhost");
    assert_eq!(c.auth, Some(Auth::Bearer("b".to_string())));
}

#[test]
fn bearer_header() {
    assert_eq!(bearer_authorization("secret"), "Bearer secret");
    assert_eq!(bearer_authorization(""), "Bearer ");
}

#[test]
fn request_carries_authorization() {
    let c = ClientBuilder::new().with_auth(Auth::Bearer("tok".to_string())).build();
    let r = c.request(hyper::Method::GET, "/api/v1/courses".to_string());
    assert_eq!(r.authorization.as_deref(), Some("Bearer tok"));
    assert_eq!(r.method, hyper::Method::GET);
    let anonymous = ClientBuilder::new().build();
    let r = RequestBuilder::new(&anonymous, hyper::Method::POST, "/x".to_string());
    assert_eq!(r.authorization, None);
}

#[test]
fn request_accepts_json() {
    let c = ClientBuilder::new().build();
    let r = c.request(hyper::Method::GET, "/api/v1/courses".to_string());
    assert_eq!(r.accept, "application/json");
    let r = r.query("page".to_string(), "2".to_string()).related("term");
    assert_eq!(r.accept, "application/json");
}

#[test]
fn uri_without_parameters() {
    let c = ClientBuilder::new().build();
    let r = c.request(hyper::Method::GET, "/api/v1/courses".to_string());
    assert_eq!(r.uri(), "https://canvas.instructure.com/api/v1/courses");
}

#[test]
fn uri_with_query_and_related() {
    let c = ClientBuilder::new().with_base_url("https://c.test").build();
    let r = c
        .request(hyper::Method::GET, "/api/v1/courses".to_string())
        .query("per_page".to_string(), "10".to_string())
        .related("term")
        .extend_query(vec![("a".to_string(), "1".to_string())])
        .extend_related(vec!["teachers", "total_scores"]);
    assert_eq!(
        r.uri(),
        "https://c.test/api/v1/courses?include[]=term&include[]=teachers&include[]=total_scores&per_page=10&a=1"
    );
}

#[test]
fn uri_with_query_only() {
    let c = ClientBuilder::new().with_base_url("https://c.test").build();
    let r = c.request(hyper::Method::GET, "/p".to_string()).query("k".to_string(), "v".to_string());
    assert_eq!(r.uri(), "https://c.test/p?k=v");
}

#[test]
fn endpoint_urls() {
    assert_eq!(paint::client::endpoint_url("https://c.test", "api/v1/courses"), "https://c.test/api/v1/courses");
}
