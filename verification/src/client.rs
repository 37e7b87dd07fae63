//! The Canvas API client's configuration and the requests it builds: the
//! authorization header and the request URI with its query string.
use vstd::prelude::*;

verus! {

/// The HTTP method of a request.
#[verifier::external_type_specification]
#[verifier::external_body]
pub struct ExMethod(hyper::Method);

/// How the client authenticates.
#[derive(Debug, Clone, PartialEq, Eq)]
pub enum Auth {
    /// An access token sent as `Authorization: Bearer <token>`.
    Bearer(String),
}

/// The Canvas instance that clients talk to unless told otherwise.
pub open spec fn default_base_url() -> Seq<char> {
    "https://canvas.instructure.com"@
}

/// The value of the `Authorization` header for a bearer token.
pub open spec fn bearer_value(token: Seq<char>) -> Seq<char> {
    "Bearer "@ + token
}

/// The `Authorization` header value for a bearer token: `Bearer <token>`.
pub fn bearer_authorization(token: &str) -> (r: String)
    ensures
        r@ == bearer_value(token@),
{
    let mut r = String::from_str("Bearer ");
    r.append(token);
    r
}

/// Builds the configuration of a [`Client`].
#[derive(Debug)]
pub struct ClientBuilder {
    auth: Option<Auth>,
    base_url: String,
}

impl ClientBuilder {
    /// The base URL the client will use.
    pub closed spec fn spec_base_url(&self) -> Seq<char> {
        self.base_url@
    }

    /// How the client will authenticate.
    pub closed spec fn spec_auth(&self) -> Option<Auth> {
        self.auth
    }

    /// A builder for a client of the default Canvas instance, without
    /// authentication.
    pub fn new() -> (b: ClientBuilder)
        ensures
            b.spec_base_url() == default_base_url(),
            b.spec_auth() is None,
    {
        ClientBuilder { auth: None, base_url: String::from_str("https://canvas.instructure.com") }
    }

    /// Authenticate with `auth`.
    pub fn auth(self, auth: Auth) -> (b: ClientBuilder)
        ensures
            b.spec_auth() == Some(auth),
            b.spec_base_url() == self.spec_base_url(),
    {
        ClientBuilder { auth: Some(auth), base_url: self.base_url }
    }

    /// Authenticate with `auth` (the same as [`ClientBuilder::auth`]).
    pub fn with_auth(self, auth: Auth) -> (b: ClientBuilder)
        ensures
            b.spec_auth() == Some(auth),
            b.spec_base_url() == self.spec_base_url(),
    {
        self.auth(auth)
    }

    /// Talk to the Canvas instance at `base_url`.
    pub fn base_url(self, base_url: String) -> (b: ClientBuilder)
        ensures
            b.spec_base_url() == base_url@,
            b.spec_auth() == self.spec_auth(),
    {
        ClientBuilder { auth: self.auth, base_url }
    }

    /// Talk to the Canvas instance at `base_url` (a copy of the text).
    pub fn with_base_url(self, base_url: &str) -> (b: ClientBuilder)
        ensures
            b.spec_base_url() == base_url@,
            b.spec_auth() == self.spec_auth(),
    {
        self.base_url(base_url.to_owned())
    }

    /// The client configuration this builder describes.
    pub fn build(self) -> (c: Client)
        ensures
            c.auth == self.spec_auth(),
            c.base_uri@ == self.spec_base_url(),
    {
        Client { auth: self.auth, base_uri: self.base_url }
    }
}

impl Default for ClientBuilder {
    fn default() -> (b: ClientBuilder)
        ensures
            b.spec_base_url() == default_base_url(),
            b.spec_auth() is None,
    {
        ClientBuilder::new()
    }
}

/// What a Canvas client needs to address and authorize its requests.
#[derive(Debug, Clone)]
pub struct Client {
    pub auth: Option<Auth>,
    pub base_uri: String,
}

impl Client {
    /// A builder for a client.
    pub fn builder() -> (b: ClientBuilder)
        ensures
            b.spec_base_url() == default_base_url(),
            b.spec_auth() is None,
    {
        ClientBuilder::new()
    }

    /// A request with `method` for `path`, relative to the base URI.
    pub fn request(&self, method: hyper::Method, path: String) -> (r: RequestBuilder)
        ensures
            r.method == method,
            r.accept@ == "application/json"@,
            r.base_uri@ == self.base_uri@,
            r.path@ == path@,
            r.query@.len() == 0,
            r.related@.len() == 0,
            match self.auth {
                Some(Auth::Bearer(token)) => r.authorization matches Some(a) && a@ == bearer_value(
                    token@,
                ),
                None => r.authorization is None,
            },
    {
        RequestBuilder::new(self, method, path)
    }
}

/// A request under construction: its method, the media type it accepts,
/// its authorization, path, query parameters and the related resources it
/// asks Canvas to embed.
#[derive(Debug)]
pub struct RequestBuilder {
    pub method: hyper::Method,
    pub accept: &'static str,
    pub authorization: Option<String>,
    pub base_uri: String,
    pub path: String,
    pub query: Vec<(String, String)>,
    pub related: Vec<&'static str>,
}

/// The URI of a request with base URI `base`, path `path`, related resources
/// `related` and query pairs `query`.
pub open spec fn uri_text(
    base: Seq<char>,
    path: Seq<char>,
    related: Seq<&'static str>,
    query: Seq<(Seq<char>, Seq<char>)>,
) -> Seq<char> {
    base + path + query_string(params(related, query))
}

/// The views of query parameters.
pub open spec fn query_view(q: Seq<(String, String)>) -> Seq<(Seq<char>, Seq<char>)> {
    q.map_values(|p: (String, String)| (p.0@, p.1@))
}

/// The parameters of a request, in the order they are written: each related
/// resource to embed as `<list parameter>=<resource>`, then the query as
/// `<key>=<value>`.
pub open spec fn params(related: Seq<&'static str>, query: Seq<(Seq<char>, Seq<char>)>) -> Seq<
    Seq<char>,
> {
    related.map_values(|i: &'static str| "\u{69}nclude[]="@ + i@) + query.map_values(
        |p: (Seq<char>, Seq<char>)| p.0 + "="@ + p.1,
    )
}

/// Parameters written after a path: the first follows a `?`, each later one
/// an `&`.
pub open spec fn query_string(ps: Seq<Seq<char>>) -> Seq<char>
    decreases ps.len(),
{
    if ps.len() == 0 {
        Seq::empty()
    } else {
        query_string(ps.drop_last()) + (if ps.len() == 1 {
            "?"@
        } else {
            "&"@
        }) + ps.last()
    }
}

impl RequestBuilder {
    /// A request with `method` for `path` of `client`'s instance, accepting
    /// JSON and carrying the client's authorization.
    pub fn new(client: &Client, method: hyper::Method, path: String) -> (r: RequestBuilder)
        ensures
            r.method == method,
            r.accept@ == "application/json"@,
            r.base_uri@ == client.base_uri@,
            r.path@ == path@,
            r.query@.len() == 0,
            r.related@.len() == 0,
            match client.auth {
                Some(Auth::Bearer(token)) => r.authorization matches Some(a) && a@ == bearer_value(
                    token@,
                ),
                None => r.authorization is None,
            },
    {
        let authorization = match &client.auth {
            Some(Auth::Bearer(token)) => Some(bearer_authorization(token.as_str())),
            None => None,
        };
        RequestBuilder {
            method,
            accept: "application/json",
            authorization,
            base_uri: client.base_uri.clone(),
            path,
            query: Vec::new(),
            related: Vec::new(),
        }
    }

    /// Adds the query parameter `key=value`.
    pub fn query(self, key: String, value: String) -> (r: RequestBuilder)
        ensures
            query_view(r.query@) == query_view(self.query@).push((key@, value@)),
            r.related@ == self.related@,
            r.path@ == self.path@,
            r.base_uri@ == self.base_uri@,
            r.method == self.method,
            r.accept == self.accept,
            r.authorization == self.authorization,
    {
        let mut b = self;
        b.query.push((key, value));
        proof {
            assert(query_view(b.query@) =~= query_view(self.query@).push((key@, value@)));
        }
        b
    }

    /// Adds each of the query parameters, in order.
    pub fn extend_query(self, pairs: Vec<(String, String)>) -> (r: RequestBuilder)
        ensures
            query_view(r.query@) == query_view(self.query@) + query_view(pairs@),
            r.related@ == self.related@,
            r.path@ == self.path@,
            r.base_uri@ == self.base_uri@,
            r.method == self.method,
            r.accept == self.accept,
            r.authorization == self.authorization,
    {
        let mut b = self;
        let mut more = pairs;
        b.query.append(&mut more);
        proof {
            assert(query_view(b.query@) =~= query_view(self.query@) + query_view(pairs@));
        }
        b
    }

    /// Asks Canvas to embed the related resource `val` in its answer.
    pub fn related(self, val: &'static str) -> (r: RequestBuilder)
        ensures
            r.related@ == self.related@.push(val),
            r.query@ == self.query@,
            r.path@ == self.path@,
            r.base_uri@ == self.base_uri@,
            r.method == self.method,
            r.accept == self.accept,
            r.authorization == self.authorization,
    {
        let mut b = self;
        b.related.push(val);
        b
    }

    /// Asks Canvas to embed each of the related resources, in order.
    pub fn extend_related(self, vals: Vec<&'static str>) -> (r: RequestBuilder)
        ensures
            r.related@ == self.related@ + vals@,
            r.query@ == self.query@,
            r.path@ == self.path@,
            r.base_uri@ == self.base_uri@,
            r.method == self.method,
            r.accept == self.accept,
            r.authorization == self.authorization,
    {
        let mut b = self;
        let mut i: usize = 0;
        while i < vals.len()
            invariant
                i <= vals.len(),
                b.related@ == self.related@ + vals@.take(i as int),
                b.query@ == self.query@,
                b.path@ == self.path@,
                b.base_uri@ == self.base_uri@,
                b.method == self.method,
                b.accept == self.accept,
                b.authorization == self.authorization,
            decreases vals.len() - i,
        {
            b.related.push(vals[i]);
            i = i + 1;
            assert(b.related@ =~= self.related@ + vals@.take(i as int));
        }
        assert(vals@.take(vals.len() as int) =~= vals@);
        b
    }

    /// The URI the request goes to: the base URI, the path, and the
    /// parameters (related resources first, then the query), the first after a `?`
    /// and each later one after an `&`.
    pub fn uri(&self) -> (u: String)
        ensures
            u@ == uri_text(self.base_uri@, self.path@, self.related@, query_view(self.query@)),
    {
        let ghost ps = params(self.related@, query_view(self.query@));
        let ghost ni = self.related@.len();
        let mut u = self.base_uri.clone();
        u.append(self.path.as_str());
        let ghost mut count: int = 0;
        let mut first = true;
        let mut i: usize = 0;
        assert(ps.take(0) =~= Seq::<Seq<char>>::empty());
        while i < self.related.len()
            invariant
                i <= self.related@.len(),
                count == i,
                first == (count == 0),
                ps == params(self.related@, query_view(self.query@)),
                ni == self.related@.len(),
                u@ == self.base_uri@ + self.path@ + query_string(ps.take(count)),
            decreases self.related@.len() - i,
        {
            let ghost before = u@;
            if first {
                u.append("?");
            } else {
                u.append("&");
            }
            u.append("\u{69}nclude[]=");
            u.append(self.related[i]);
            proof {
                assert(ps[count] == "\u{69}nclude[]="@ + self.related@[i as int]@);
                assert(ps.take(count + 1).drop_last() =~= ps.take(count));
                assert(u@ =~= before + (if count == 0 {
                    "?"@
                } else {
                    "&"@
                }) + ps[count]);
            }
            proof {
                count = count + 1;
            }
            first = false;
            i = i + 1;
        }
        let mut j: usize = 0;
        while j < self.query.len()
            invariant
                j <= self.query@.len(),
                count == ni + j,
                first == (count == 0),
                ps == params(self.related@, query_view(self.query@)),
                ni == self.related@.len(),
                u@ == self.base_uri@ + self.path@ + query_string(ps.take(count)),
            decreases self.query@.len() - j,
        {
            let ghost before = u@;
            if first {
                u.append("?");
            } else {
                u.append("&");
            }
            u.append(self.query[j].0.as_str());
            u.append("=");
            u.append(self.query[j].1.as_str());
            proof {
                assert(ps[count] == self.query@[j as int].0@ + "="@ + self.query@[j as int].1@);
                assert(ps.take(count + 1).drop_last() =~= ps.take(count));
                assert(u@ =~= before + (if count == 0 {
                    "?"@
                } else {
                    "&"@
                }) + ps[count]);
            }
            proof {
                count = count + 1;
            }
            first = false;
            j = j + 1;
        }
        assert(ps.take(count) =~= ps);
        u
    }
}

/// The URL of an endpoint of the instance at `base_url`: the base URL, a
/// `/`, then the path.
pub fn endpoint_url(base_url: &str, path: &str) -> (r: String)
    ensures
        r@ == base_url@ + "/"@ + path@,
{
    let mut r = base_url.to_owned();
    r.append("/");
    r.append(path);
    r
}

/// A request without related resources or query pairs goes to its base URI
/// followed by its path.
pub proof fn lemma_uri_without_parameters(base: Seq<char>, path: Seq<char>)
    ensures
        uri_text(base, path, Seq::empty(), Seq::empty()) == base + path,
{
    assert(params(Seq::<&'static str>::empty(), Seq::<(Seq<char>, Seq<char>)>::empty())
        =~= Seq::<Seq<char>>::empty());
    assert(base + path + Seq::<char>::empty() =~= base + path);
}

/// Adding a query pair appends `key=value` to the URI, after a `?` where the
/// request had no parameter yet and after an `&` where it had one (a related
/// resource or a query pair).
pub proof fn lemma_uri_query_appended(
    base: Seq<char>,
    path: Seq<char>,
    related: Seq<&'static str>,
    query: Seq<(Seq<char>, Seq<char>)>,
    key: Seq<char>,
    value: Seq<char>,
)
    ensures
        uri_text(base, path, related, query.push((key, value))) == uri_text(
            base,
            path,
            related,
            query,
        ) + (if related.len() + query.len() == 0 {
            "?"@
        } else {
            "&"@
        }) + key + "="@ + value,
{
    let ps = params(related, query);
    let ps2 = params(related, query.push((key, value)));
    assert(ps2 =~= ps.push(key + "="@ + value));
    assert(ps2.drop_last() =~= ps);
    assert(ps.len() == related.len() + query.len());
    assert(base + path + (query_string(ps) + (if ps.len() == 0 {
        "?"@
    } else {
        "&"@
    }) + (key + "="@ + value)) =~= base + path + query_string(ps) + (if ps.len() == 0 {
        "?"@
    } else {
        "&"@
    }) + key + "="@ + value);
}

/// Adding a related resource to a request without query pairs appends
/// `include[]=<resource>` to the URI, after a `?` where it had no related
/// resource yet and after an `&` where it had one.
pub proof fn lemma_uri_related_appended(
    base: Seq<char>,
    path: Seq<char>,
    related: Seq<&'static str>,
    resource: &'static str,
)
    ensures
        uri_text(base, path, related.push(resource), Seq::empty()) == uri_text(
            base,
            path,
            related,
            Seq::empty(),
        ) + (if related.len() == 0 {
            "?"@
        } else {
            "&"@
        }) + "\u{69}nclude[]="@ + resource@,
{
    let q = Seq::<(Seq<char>, Seq<char>)>::empty();
    let ps = params(related, q);
    let ps2 = params(related.push(resource), q);
    let x = "\u{69}nclude[]="@ + resource@;
    assert(ps2 =~= ps.push(x));
    assert(ps2.drop_last() =~= ps);
    assert(ps.len() == related.len());
    assert(base + path + (query_string(ps) + (if ps.len() == 0 {
        "?"@
    } else {
        "&"@
    }) + x) =~= base + path + query_string(ps) + (if ps.len() == 0 {
        "?"@
    } else {
        "&"@
    }) + "\u{69}nclude[]="@ + resource@);
}

} // verus!
