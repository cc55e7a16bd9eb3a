use tiny_http_client::{begin_request, parse_url, resolve_redirect, HttpError, ParsedUrl};

fn url(https: bool, host: &str, port: u16, path: &str) -> ParsedUrl {
    ParsedUrl { https, host: host.to_string(), port, path: path.to_string() }
}

fn parts(u: &ParsedUrl) -> (bool, String, u16, String) {
    (u.https, u.host.clone(), u.port, u.path.clone())
}

#[test]
fn http_url_gets_port_80() {
    let u = parse_url("http://example.com/index.html").unwrap();
    assert_eq!(parts(&u), (false, "example.com".to_string(), 80, "/index.html".to_string()));
}

#[test]
fn https_url_gets_port_443_and_root_path() {
    let u = parse_url("https://example.com").unwrap();
    assert_eq!(parts(&u), (true, "example.com".to_string(), 443, "/".to_string()));
}

#[test]
fn explicit_port_is_used() {
    let u = parse_url("http://localhost:8080/a/b?c=d").unwrap();
    assert_eq!(parts(&u), (false, "localhost".to_string(), 8080, "/a/b?c=d".to_string()));
}

#[test]
fn port_with_plus_sign_is_accepted() {
    let u = parse_url("http://h:+81/").unwrap();
    assert_eq!(parts(&u), (false, "h".to_string(), 81, "/".to_string()));
}

#[test]
fn bad_port_stays_in_host() {
    let u = parse_url("http://h:abc/x").unwrap();
    assert_eq!(parts(&u), (false, "h:abc".to_string(), 80, "/x".to_string()));
    let u = parse_url("http://h:70000/x").unwrap();
    assert_eq!(parts(&u), (false, "h:70000".to_string(), 80, "/x".to_string()));
    let u = parse_url("http://h:/x").unwrap();
    assert_eq!(parts(&u), (false, "h:".to_string(), 80, "/x".to_string()));
}

#[test]
fn ipv6_host() {
    let u = parse_url("https://[::1]:8443/p").unwrap();
    assert_eq!(parts(&u), (true, "::1".to_string(), 8443, "/p".to_string()));
    let u = parse_url("http://[fe80::2]/").unwrap();
    assert_eq!(parts(&u), (false, "fe80::2".to_string(), 80, "/".to_string()));
    let u = parse_url("http://[::1]x/").unwrap();
    assert_eq!(parts(&u), (false, "::1".to_string(), 80, "/".to_string()));
}

#[test]
fn unclosed_ipv6_host_is_refused() {
    assert_eq!(parse_url("http://[::1/p").err(), Some(HttpError::InvalidIpv6Address));
}

#[test]
fn other_schemes_are_refused() {
    assert_eq!(parse_url("ftp://example.com/").err(), Some(HttpError::UnsupportedUrl));
    assert_eq!(parse_url("HTTP://example.com/").err(), Some(HttpError::UnsupportedUrl));
    assert_eq!(parse_url("").err(), Some(HttpError::UnsupportedUrl));
}

#[test]
fn non_ascii_host() {
    let u = parse_url("http://bücher.example:81/ä").unwrap();
    assert_eq!(parts(&u), (false, "bücher.example".to_string(), 81, "/ä".to_string()));
}

#[test]
fn absolute_location_is_kept() {
    let cur = url(true, "a.com", 443, "/x/y");
    assert_eq!(resolve_redirect(&cur, " http://b.org/z "), "http://b.org/z");
    assert_eq!(resolve_redirect(&cur, "https://c.net"), "https://c.net");
}

#[test]
fn protocol_relative_location_keeps_scheme() {
    let cur = url(true, "a.com", 443, "/x/y");
    assert_eq!(resolve_redirect(&cur, "//cdn.example/f"), "https://cdn.example/f");
    let cur = url(false, "a.com", 80, "/x/y");
    assert_eq!(resolve_redirect(&cur, "//cdn.example/f"), "http://cdn.example/f");
}

#[test]
fn absolute_path_location_keeps_origin() {
    let cur = url(true, "a.com", 443, "/x/y");
    assert_eq!(resolve_redirect(&cur, "/z/w"), "https://a.com:443/z/w");
    let cur = url(false, "h", 8080, "/");
    assert_eq!(resolve_redirect(&cur, "\t/q\r\n"), "http://h:8080/q");
}

#[test]
fn relative_location_uses_directory_of_path() {
    let cur = url(false, "a.com", 80, "/dir/page.html");
    assert_eq!(resolve_redirect(&cur, "other.html"), "http://a.com:80/dir/other.html");
    let cur = url(false, "a.com", 0, "noslash");
    assert_eq!(resolve_redirect(&cur, "x"), "http://a.com:0/x");
}

#[test]
fn absolute_path_redirect_round_trips() {
    let cur = parse_url("https://[::1]:8443/a/b").unwrap();
    let next = resolve_redirect(&cur, "  /c/d ");
    let again = parse_url(&next).unwrap();
    assert_eq!(parts(&again), (true, "::1".to_string(), 8443, "/c/d".to_string()));
    let cur = parse_url("http://example.com/").unwrap();
    let again = parse_url(&resolve_redirect(&cur, "/e")).unwrap();
    assert_eq!(parts(&again), (false, "example.com".to_string(), 80, "/e".to_string()));
}

#[test]
fn redirect_limit() {
    assert!(begin_request("http://a/", 0).is_ok());
    assert!(begin_request("http://a/", 5).is_ok());
    assert_eq!(begin_request("http://a/", 6).err(), Some(HttpError::TooManyRedirects));
    assert_eq!(begin_request("mailto:x", 1).err(), Some(HttpError::UnsupportedUrl));
}
