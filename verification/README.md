# paint

A client and resource cache for the Canvas LMS, with its logic verified by
Verus.

`src/` is the verified library:

- `text`, `links`, `headers`, `pagination`: reading the pagination links of a
  response's `Link` header, as borrowed text or as parsed URIs.
- `paging`: the decisions of a walk over the pages of a listing (requests,
  throttling, failures) and of the stream of items that reads each page.
- `client`, `error`: client configuration, request URIs and authorization, and
  the client's errors (including the window of text shown around a JSON error).
- `bytes`, `id`, `key`: byte encodings of ids and of the keys under which
  resources are cached, with their round trips. An ID's byte representation
  (`to_be_bytes`, and `to_le_bytes` as documented) is big-endian; `from_le_bytes`
  reads little-endian bytes.
- `store`, `update`, `cache`, `socket`: byte-keyed stores, the in-memory
  store of the browser client and its stored form, bringing a view's
  resources up to date (replacing exactly the view's resources), and the
  address of the update server's socket.
- `resource`, `message`, `selector`, `search`, `streams`: resource kinds and
  plain enumerations, server messages, selectors, search queries, and the
  decisions of fallible stream combinators.

`app/` holds what talks to the outside world: sending requests with `hyper`
and `reqwest`, polling streams and timers, `bincode` and `serde` encodings
(with serialisable copies of the library's types), time stamps, and output
files.
