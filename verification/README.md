# tiny_http_client

A small synchronous HTTP/HTTPS GET client whose logic is verified with Verus.

- `src/` is the verified library: URL parsing and redirect resolution
  (`url.rs`), the request text (`request.rs`), reading a response and its
  headers (`response.rs`), chunked transfer decoding (`chunked.rs`), the
  decisions of a request that follows redirects (`client.rs`), and what the
  library takes from rustls (`tls.rs`).  `search.rs` and `text.rs` hold the
  searching, trimming, case folding and number parsing the rest is built on;
  `sys.rs` holds the standard-library calls that vstd does not specify.
- `app/` performs the network I/O: it connects, sets up TLS, writes the
  request the library wrote, reads the reply and hands it to the library,
  and follows redirects as the library decides.
- `tests/` exercises the library on concrete requests and responses.
