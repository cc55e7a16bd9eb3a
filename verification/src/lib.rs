//! A small synchronous HTTP/HTTPS GET client, verified.
//!
//! The library holds the client's own logic, each part with a contract that
//! Verus proves: parsing URLs and resolving redirects ([`url`]), writing the
//! request ([`request`]), reading the response, its headers and its body
//! ([`response`], [`chunked`]), and the decisions of a request that follows
//! redirects ([`client`]).  Opening sockets and reading and writing them is
//! left to the caller, who hands the library plain bytes and strings.

pub mod chunked;
pub mod client;
pub mod error;
pub mod request;
pub mod response;
pub mod search;
pub mod sys;
pub mod text;
pub mod tls;
pub mod url;

pub use chunked::{decode_chunked, find_crlf, find_header_end};
pub use client::{begin_request, handle_response, Next, MAX_REDIRECTS};
pub use error::HttpError;
pub use request::write_request;
pub use response::{read_response, Response};
pub use tls::{load_root_certificates, server_name};
pub use url::{parse_url, resolve_redirect, ParsedUrl};
