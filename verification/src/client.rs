//! The decisions of a GET request with redirects.  The caller performs each
//! fetch; the library decides what the next URL is, when to stop, and what
//! the caller gets back.

use vstd::prelude::*;

use crate::error::HttpError;
use crate::response::{spec_header, Response};
use crate::url::{parse_url, resolve_redirect, spec_parse_url, spec_resolve_redirect, ParsedUrl, UrlSpec};

verus! {

/// The number of redirects that are followed before a request fails.
pub const MAX_REDIRECTS: usize = 5;

/// The redirect statuses that are followed: 301, 302, 303, 307 and 308.
pub open spec fn is_redirect_status(status: u16) -> bool {
    status == 301 || status == 302 || status == 303 || status == 307 || status == 308
}

/// A status in `200..300`.
pub open spec fn is_success(status: u16) -> bool {
    200 <= status < 300
}

/// The `Location` a response redirects to, if it is a redirect that has one.
pub open spec fn redirect_target(response: Response) -> Option<Seq<char>> {
    if is_redirect_status(response.status) {
        spec_header(response@.headers, "Location"@)
    } else {
        None
    }
}

/// What happens after a response.
pub enum Next {
    /// Fetch this URL next.
    Redirect(String),
    /// The request is done with this response.
    Done(Response),
    /// The request fails.
    Failed(HttpError),
}

/// What the fetch number `redirect_count` (counting from 0) of a request for
/// `url` asks for: more redirects than the limit fail, and otherwise the URL
/// must parse.
pub fn begin_request(url: &str, redirect_count: usize) -> (res: Result<ParsedUrl, HttpError>)
    ensures
        redirect_count > MAX_REDIRECTS ==> res == Err::<ParsedUrl, HttpError>(
            HttpError::TooManyRedirects,
        ),
        redirect_count <= MAX_REDIRECTS ==> match res {
            Ok(u) => spec_parse_url(url@) == Ok::<UrlSpec, HttpError>(u@),
            Err(e) => spec_parse_url(url@) == Err::<UrlSpec, HttpError>(e),
        },
{
    if redirect_count > MAX_REDIRECTS {
        return Err(HttpError::TooManyRedirects);
    }
    parse_url(url)
}

/// Decides what follows `response` to a request for `current`: a redirect
/// status with a `Location` header leads to the resolved location; any other
/// response ends the request, successfully only with a status in `200..300`.
pub fn handle_response(current: &ParsedUrl, response: Response) -> (next: Next)
    ensures
        match redirect_target(response) {
            Some(location) => next matches Next::Redirect(url) && url@ == spec_resolve_redirect(
                current@,
                location,
            ),
            None => if 200 <= response.status < 300 {
                next == Next::Done(response)
            } else {
                next == Next::Failed(HttpError::HttpStatus(response.status))
            },
        },
{
    let status = response.status;
    if status == 301 || status == 302 || status == 303 || status == 307 || status == 308 {
        if let Some(location) = response.header("Location") {
            return Next::Redirect(resolve_redirect(current, location));
        }
    }
    if !(200 <= status && status < 300) {
        return Next::Failed(HttpError::HttpStatus(status));
    }
    Next::Done(response)
}

/// The statuses that end a request successfully are exactly `200` to `299`:
/// every informational, redirect, client-error and server-error status fails.
pub proof fn law_success_statuses(status: u16)
    ensures
        is_success(status) <==> 200 <= status && status <= 299,
        status < 200 ==> !is_success(status),
        status >= 300 ==> !is_success(status),
{
}

/// The redirects that are followed are exactly 301, 302, 303, 307 and 308.
pub proof fn law_redirect_statuses(status: u16)
    ensures
        is_redirect_status(status) <==> (status == 301 || status == 302 || status == 303 || status
            == 307 || status == 308),
        status == 300 || status == 304 || status == 305 || status == 306 ==> !is_redirect_status(
            status,
        ),
{
}

/// A response is followed exactly when it has a redirect status and a
/// `Location` header; a response that is not followed ends the request, in
/// success exactly when its status is in `200..300`.
pub proof fn law_response_outcome(response: Response)
    ensures
        redirect_target(response) is Some <==> (is_redirect_status(response.status) && spec_header(
            response@.headers,
            "Location"@,
        ) is Some),
        redirect_target(response) is None && response.status >= 300 ==> !is_success(
            response.status,
        ),
{
}

} // verus!
