//! URLs: parsing `http://` and `https://` URLs into their parts, and
//! resolving the target of a redirect against the URL that was requested.

use vstd::prelude::*;

use crate::error::HttpError;
use crate::search::{
    find, find_char, is_first_match, is_last_match, lemma_find, lemma_find_is, lemma_match_single,
    lemma_rfind, lemma_rfind_is,
    match_at, rfind, rfind_char, starts_with, starts_with_chars,
};
use crate::text::{
    decimal, lemma_decimal_digits, lemma_parse_decimal, parse_unsigned, parse_unsigned_chars, push_decimal, push_range, str_chars,
    string_from_chars, trim, trim_bounds,
};

verus! {

/// The parts of a URL, as mathematical values.
pub struct UrlSpec {
    pub https: bool,
    pub host: Seq<char>,
    pub port: u16,
    pub path: Seq<char>,
}

/// A URL split into the parts that a request needs.
pub struct ParsedUrl {
    pub https: bool,
    pub host: String,
    pub port: u16,
    pub path: String,
}

impl View for ParsedUrl {
    type V = UrlSpec;

    open spec fn view(&self) -> UrlSpec {
        UrlSpec { https: self.https, host: self.host@, port: self.port, path: self.path@ }
    }
}

pub open spec fn https_prefix() -> Seq<char> {
    seq!['h', 't', 't', 'p', 's', ':', '/', '/']
}

pub open spec fn http_prefix() -> Seq<char> {
    seq!['h', 't', 't', 'p', ':', '/', '/']
}

/// The port used when the URL names none: 443 for HTTPS, 80 for HTTP.
pub open spec fn default_port(https: bool) -> u16 {
    if https {
        443
    } else {
        80
    }
}

/// The port that `text` names, if it is a decimal number that fits in a `u16`.
pub open spec fn port_number(text: Seq<char>) -> Option<u16> {
    match parse_unsigned(text, 10, 65535) {
        Some(p) => Some(p as u16),
        None => None,
    }
}

/// Host and port of an authority that starts with `[`: the host runs to the
/// first `]`, and a port may follow after a `:`.
pub open spec fn bracketed_authority(authority: Seq<char>, default: u16) -> Option<(Seq<char>, u16)> {
    let inner = authority.drop_first();
    match find(inner, seq![']']) {
        None => None,
        Some(end) => {
            let after = inner.skip(end + 1);
            let port = if after.len() > 0 && after[0] == ':' {
                match port_number(after.drop_first()) {
                    Some(p) => p,
                    None => default,
                }
            } else {
                default
            };
            Some((inner.take(end), port))
        },
    }
}

/// Host and port of any other authority: a port follows the last `:` when
/// what follows it is a port number; otherwise the whole authority is the host.
pub open spec fn plain_authority(authority: Seq<char>, default: u16) -> (Seq<char>, u16) {
    match rfind(authority, seq![':']) {
        Some(pos) => match port_number(authority.skip(pos + 1)) {
            Some(p) => (authority.take(pos), p),
            None => (authority, default),
        },
        None => (authority, default),
    }
}

/// What a URL means: the scheme decides HTTPS and the default port; the
/// authority runs to the first `/` and the path is the rest (or `/`).
pub open spec fn spec_parse_url(input: Seq<char>) -> Result<UrlSpec, HttpError> {
    if !starts_with(input, https_prefix()) && !starts_with(input, http_prefix()) {
        Err(HttpError::UnsupportedUrl)
    } else {
        let https = starts_with(input, https_prefix());
        let rest = if https {
            input.skip(8)
        } else {
            input.skip(7)
        };
        let authority = match find(rest, seq!['/']) {
            Some(p) => rest.take(p),
            None => rest,
        };
        let path = match find(rest, seq!['/']) {
            Some(p) => rest.skip(p),
            None => seq!['/'],
        };
        let default = default_port(https);
        if authority.len() > 0 && authority[0] == '[' {
            match bracketed_authority(authority, default) {
                None => Err(HttpError::InvalidIpv6Address),
                Some((host, port)) => Ok(UrlSpec { https, host, port, path }),
            }
        } else {
            let (host, port) = plain_authority(authority, default);
            Ok(UrlSpec { https, host, port, path })
        }
    }
}

fn port_from(v: &Vec<char>, from: usize, to: usize, default: u16) -> (port: u16)
    requires
        from <= to <= v@.len(),
    ensures
        port == match port_number(v@.subrange(from as int, to as int)) {
            Some(p) => p,
            None => default,
        },
{
    match parse_unsigned_chars(v, from, to, 10, 65535) {
        Some(p) => p as u16,
        None => default,
    }
}

/// Host and port of the bracketed authority `v[from..to]` (`v[from]` is `[`).
fn bracketed_authority_of(v: &Vec<char>, from: usize, to: usize, default: u16) -> (res: Option<
    (String, u16),
>)
    requires
        from < to <= v@.len(),
    ensures
        match res {
            Some((host, port)) => bracketed_authority(v@.subrange(from as int, to as int), default)
                == Some((host@, port)),
            None => bracketed_authority(v@.subrange(from as int, to as int), default) is None,
        },
{
    let ghost authority = v@.subrange(from as int, to as int);
    let ghost inner = authority.drop_first();
    assert(inner =~= v@.subrange(from + 1, to as int));
    match find_char(v, from + 1, to, ']') {
        None => None,
        Some(e) => {
            let ghost after = inner.skip(e - from - 1 + 1);
            assert(after =~= v@.subrange(e + 1, to as int));
            assert(inner.take(e - from - 1) =~= v@.subrange(from + 1, e as int));
            let port: u16 = if e + 1 < to && v[e + 1] == ':' {
                assert(after.drop_first() =~= v@.subrange(e + 2, to as int));
                port_from(v, e + 2, to, default)
            } else {
                default
            };
            let host = string_from_chars(v, from + 1, e);
            Some((host, port))
        },
    }
}

/// Host and port of the authority `v[from..to]` that does not start with `[`.
fn plain_authority_of(v: &Vec<char>, from: usize, to: usize, default: u16) -> (res: (String, u16))
    requires
        from <= to <= v@.len(),
    ensures
        plain_authority(v@.subrange(from as int, to as int), default) == (res.0@, res.1),
{
    let ghost authority = v@.subrange(from as int, to as int);
    match rfind_char(v, from, to, ':') {
        Some(pos) => {
            assert(authority.skip(pos - from + 1) =~= v@.subrange(pos + 1, to as int));
            assert(authority.take(pos - from) =~= v@.subrange(from as int, pos as int));
            match parse_unsigned_chars(v, pos + 1, to, 10, 65535) {
                Some(p) => (string_from_chars(v, from, pos), p as u16),
                None => (string_from_chars(v, from, to), default),
            }
        },
        None => (string_from_chars(v, from, to), default),
    }
}

/// Splits an `http://` or `https://` URL into scheme, host, port and path.
pub fn parse_url(input: &str) -> (res: Result<ParsedUrl, HttpError>)
    ensures
        match res {
            Ok(url) => spec_parse_url(input@) == Ok::<UrlSpec, HttpError>(url@),
            Err(e) => spec_parse_url(input@) == Err::<UrlSpec, HttpError>(e),
        },
{
    let v = str_chars(input);
    let n = v.len();
    let ghost s = v@;
    assert(s.subrange(0, n as int) =~= s);
    let https_p: Vec<char> = vec!['h', 't', 't', 'p', 's', ':', '/', '/'];
    let http_p: Vec<char> = vec!['h', 't', 't', 'p', ':', '/', '/'];
    let is_https = starts_with_chars(&v, 0, &https_p);
    let is_http = starts_with_chars(&v, 0, &http_p);
    if !is_https && !is_http {
        return Err(HttpError::UnsupportedUrl);
    }
    let rs: usize = if is_https {
        8
    } else {
        7
    };
    let ghost rest = if is_https {
        s.skip(8)
    } else {
        s.skip(7)
    };
    assert(rest =~= s.subrange(rs as int, n as int));
    let slash = find_char(&v, rs, n, '/');
    let ae: usize = match slash {
        Some(p) => p,
        None => n,
    };
    let path = match slash {
        Some(p) => string_from_chars(&v, p, n),
        None => {
            let root: Vec<char> = vec!['/'];
            string_from_chars(&root, 0, 1)
        },
    };
    let ghost authority = match find(rest, seq!['/']) {
        Some(p) => rest.take(p),
        None => rest,
    };
    proof {
        match slash {
            Some(p) => {
                assert(rest.take(p - rs) =~= s.subrange(rs as int, p as int));
                assert(rest.skip(p - rs) =~= s.subrange(p as int, n as int));
            },
            None => {
                assert(path@ =~= seq!['/']);
            },
        }
        assert(authority =~= s.subrange(rs as int, ae as int));
    }
    let default: u16 = if is_https {
        443
    } else {
        80
    };
    if ae > rs && v[rs] == '[' {
        match bracketed_authority_of(&v, rs, ae, default) {
            None => Err(HttpError::InvalidIpv6Address),
            Some((host, port)) => Ok(ParsedUrl { https: is_https, host, port, path }),
        }
    } else {
        let (host, port) = plain_authority_of(&v, rs, ae, default);
        Ok(ParsedUrl { https: is_https, host, port, path })
    }
}

/// `http` or `https`.
pub open spec fn scheme_name(https: bool) -> Seq<char> {
    if https {
        seq!['h', 't', 't', 'p', 's']
    } else {
        seq!['h', 't', 't', 'p']
    }
}

/// `scheme://host:port` of a URL.
pub open spec fn origin(url: UrlSpec) -> Seq<char> {
    scheme_name(url.https) + seq![':', '/', '/'] + url.host + seq![':'] + decimal(url.port as nat)
}

/// The directory part of a path: up to and including its last `/`.
pub open spec fn base_path(path: Seq<char>) -> Seq<char> {
    match rfind(path, seq!['/']) {
        Some(p) => path.take(p + 1),
        None => seq!['/'],
    }
}

/// The URL that a `Location` header sends a request from `current` to: an
/// absolute URL as it stands, a protocol-relative one under the current
/// scheme, an absolute path under the current origin, and a relative path
/// under the directory of the current path.
pub open spec fn spec_resolve_redirect(current: UrlSpec, location: Seq<char>) -> Seq<char> {
    let loc = trim(location);
    if starts_with(loc, http_prefix()) || starts_with(loc, https_prefix()) {
        loc
    } else if starts_with(loc, seq!['/', '/']) {
        scheme_name(current.https) + seq![':', '/', '/'] + loc.skip(2)
    } else if starts_with(loc, seq!['/']) {
        origin(current) + loc
    } else {
        origin(current) + base_path(current.path) + loc
    }
}

fn push_origin(out: &mut Vec<char>, current: &ParsedUrl)
    ensures
        final(out)@ == old(out)@ + origin(current@),
{
    let ghost o = out@;
    let scheme: Vec<char> = if current.https {
        vec!['h', 't', 't', 'p', 's', ':', '/', '/']
    } else {
        vec!['h', 't', 't', 'p', ':', '/', '/']
    };
    push_range(out, &scheme, 0, scheme.len());
    let host = str_chars(current.host.as_str());
    push_range(out, &host, 0, host.len());
    out.push(':');
    push_decimal(out, current.port);
    proof {
        assert(scheme@.subrange(0, scheme@.len() as int) =~= scheme_name(current.https) + seq![
            ':',
            '/',
            '/',
        ]);
        assert(host@.subrange(0, host@.len() as int) =~= current.host@);
        assert(out@ =~= o + origin(current@));
    }
}

/// The URL that a redirect to `location` leads to from `current`.
pub fn resolve_redirect(current: &ParsedUrl, location: &str) -> (next: String)
    ensures
        next@ == spec_resolve_redirect(current@, location@),
{
    let v = str_chars(location);
    let (a, b) = trim_bounds(&v, 0, v.len());
    assert(v@.subrange(0, v@.len() as int) =~= v@);
    let ghost loc = trim(location@);
    let http_p: Vec<char> = vec!['h', 't', 't', 'p', ':', '/', '/'];
    let https_p: Vec<char> = vec!['h', 't', 't', 'p', 's', ':', '/', '/'];
    let two_slashes: Vec<char> = vec!['/', '/'];
    let one_slash: Vec<char> = vec!['/'];
    assert(one_slash@ =~= seq!['/']);
    assert(two_slashes@ =~= seq!['/', '/']);
    let loc_v = {
        let mut t: Vec<char> = Vec::new();
        push_range(&mut t, &v, a, b);
        t
    };
    assert(loc_v@ =~= loc);
    assert(loc_v@.subrange(0, loc_v@.len() as int) =~= loc);
    let mut out: Vec<char> = Vec::new();
    if starts_with_chars(&loc_v, 0, &http_p) || starts_with_chars(&loc_v, 0, &https_p) {
        return string_from_chars(&loc_v, 0, loc_v.len());
    }
    if starts_with_chars(&loc_v, 0, &two_slashes) {
        let scheme: Vec<char> = if current.https {
            vec!['h', 't', 't', 'p', 's', ':', '/', '/']
        } else {
            vec!['h', 't', 't', 'p', ':', '/', '/']
        };
        push_range(&mut out, &scheme, 0, scheme.len());
        push_range(&mut out, &loc_v, 2, loc_v.len());
        proof {
            assert(scheme@.subrange(0, scheme@.len() as int) =~= scheme_name(current.https) + seq![
                ':',
                '/',
                '/',
            ]);
            assert(loc_v@.subrange(2, loc_v@.len() as int) =~= loc.skip(2));
        }
        return string_from_chars(&out, 0, out.len());
    }
    push_origin(&mut out, current);
    assert(out@ =~= origin(current@));
    let absolute = starts_with_chars(&loc_v, 0, &one_slash);
    if !absolute {
        let path = str_chars(current.path.as_str());
        match rfind_char(&path, 0, path.len(), '/') {
            Some(p) => {
                push_range(&mut out, &path, 0, p + 1);
                proof {
                    assert(path@.subrange(0, path@.len() as int) =~= current.path@);
                    assert(path@.subrange(0, p + 1) =~= current.path@.take(p + 1));
                }
            },
            None => {
                out.push('/');
                assert(path@.subrange(0, path@.len() as int) =~= current.path@);
            },
        }
        assert(out@ =~= origin(current@) + base_path(current.path@));
    }
    push_range(&mut out, &loc_v, 0, loc_v.len());
    assert(absolute == starts_with(loc, seq!['/']));
    assert(!starts_with(loc, seq!['/', '/']));
    assert(!starts_with(loc, http_prefix()));
    assert(!starts_with(loc, https_prefix()));
    assert(absolute ==> out@ =~= origin(current@) + loc);
    assert(!absolute ==> out@ =~= origin(current@) + base_path(current.path@) + loc);
    assert(out@.subrange(0, out@.len() as int) =~= out@);
    string_from_chars(&out, 0, out.len())
}

proof fn lemma_scheme_recognised(https: bool, rest: Seq<char>)
    ensures
        starts_with(scheme_name(https) + seq![':', '/', '/'] + rest, https_prefix()) == https,
        !https ==> starts_with(scheme_name(https) + seq![':', '/', '/'] + rest, http_prefix()),
        (scheme_name(https) + seq![':', '/', '/'] + rest).skip(if https {
            8int
        } else {
            7int
        }) == rest,
{
    let scheme = scheme_name(https) + seq![':', '/', '/'];
    let out = scheme + rest;
    if https {
        assert forall|i: int| 0 <= i < 8 implies out[0 + i] == https_prefix()[i] by {
            assert(out[i] == scheme[i]);
        }
        assert(out.skip(8) =~= rest);
    } else {
        assert forall|i: int| 0 <= i < 7 implies out[0 + i] == http_prefix()[i] by {
            assert(out[i] == scheme[i]);
        }
        if starts_with(out, https_prefix()) {
            assert(out[0int + 4int] == https_prefix()[4]);
        }
        assert(out.skip(7) =~= rest);
    }
}

proof fn lemma_authority_then_path(authority: Seq<char>, loc: Seq<char>)
    requires
        forall|i: int| 0 <= i < authority.len() ==> authority[i] != '/',
        loc.len() > 0,
        loc[0] == '/',
    ensures
        find(authority + loc, seq!['/']) == Some(authority.len() as int),
        (authority + loc).take(authority.len() as int) == authority,
        (authority + loc).skip(authority.len() as int) == loc,
{
    let rest = authority + loc;
    let a = authority.len() as int;
    assert forall|j: int| 0 <= j < a implies !#[trigger] match_at(rest, seq!['/'], j) by {
        lemma_match_single(rest, '/', j);
        assert(rest[j] == authority[j]);
    }
    lemma_match_single(rest, '/', a);
    assert(rest[a] == loc[0]);
    lemma_find_is(rest, seq!['/'], a);
    assert(rest.take(a) =~= authority);
    assert(rest.skip(a) =~= loc);
}

proof fn lemma_host_and_port(host: Seq<char>, port: u16, default: u16)
    ensures
        plain_authority(host + seq![':'] + decimal(port as nat), default) == (host, port),
{
    let dec = decimal(port as nat);
    let authority = host + seq![':'] + dec;
    let h = host.len() as int;
    lemma_decimal_digits(port as nat);
    lemma_match_single(authority, ':', h);
    assert forall|j: int| h < j implies !#[trigger] match_at(authority, seq![':'], j) by {
        lemma_match_single(authority, ':', j);
        if h < j < authority.len() {
            assert(authority[j] == dec[j - h - 1]);
        }
    }
    lemma_rfind_is(authority, seq![':'], h);
    assert(authority.skip(h + 1) =~= dec);
    assert(authority.take(h) =~= host);
    lemma_parse_decimal(port as nat, 65535);
}

/// An absolute-path redirect keeps the scheme, host and port of the URL it
/// was resolved against: parsing the URL it resolves to gives back those
/// parts, with the trimmed location as the path.  (A host that starts with
/// `[` or holds a `/` is not one that parsing a URL yields without brackets,
/// and is left out.)
pub proof fn law_absolute_path_redirect(current: UrlSpec, location: Seq<char>)
    requires
        starts_with(trim(location), seq!['/']),
        !starts_with(trim(location), seq!['/', '/']),
        current.host.len() > 0 ==> current.host[0] != '[',
        forall|i: int| 0 <= i < current.host.len() ==> current.host[i] != '/',
    ensures
        spec_parse_url(spec_resolve_redirect(current, location)) == Ok::<UrlSpec, HttpError>(
            UrlSpec {
                https: current.https,
                host: current.host,
                port: current.port,
                path: trim(location),
            },
        ),
{
    let loc = trim(location);
    let host = current.host;
    let dec = decimal(current.port as nat);
    let authority = host + seq![':'] + dec;
    let rest = authority + loc;
    lemma_match_single(loc, '/', 0);
    if starts_with(loc, http_prefix()) {
        assert(loc[0int + 0int] == http_prefix()[0]);
    }
    if starts_with(loc, https_prefix()) {
        assert(loc[0int + 0int] == https_prefix()[0]);
    }
    assert(spec_resolve_redirect(current, location) =~= scheme_name(current.https) + seq![
        ':',
        '/',
        '/',
    ] + rest);
    lemma_scheme_recognised(current.https, rest);
    lemma_decimal_digits(current.port as nat);
    assert forall|i: int| 0 <= i < authority.len() implies authority[i] != '/' by {
        if i < host.len() {
            assert(authority[i] == host[i]);
        } else if i > host.len() {
            assert(authority[i] == dec[i - host.len() - 1]);
        }
    }
    lemma_authority_then_path(authority, loc);
    if host.len() == 0 {
        assert(authority[0] == ':');
    } else {
        assert(authority[0] == host[0]);
    }
    lemma_host_and_port(host, current.port, default_port(current.https));
}

/// `http://` or `https://`.
pub open spec fn scheme_prefix(https: bool) -> Seq<char> {
    if https {
        seq!['h', 't', 't', 'p', 's', ':', '/', '/']
    } else {
        seq!['h', 't', 't', 'p', ':', '/', '/']
    }
}

proof fn lemma_no_slash(s: Seq<char>)
    requires
        forall|i: int| 0 <= i < s.len() ==> s[i] != '/',
    ensures
        find(s, seq!['/']) is None,
{
    assert forall|j: int| !#[trigger] match_at(s, seq!['/'], j) by {
        lemma_match_single(s, '/', j);
    }
    lemma_find(s, seq!['/']);
}

/// A URL written as scheme, host, `:`, a port in decimal and a path (empty,
/// or starting with `/`) parses back into that host, that port and that path
/// (`/` when it was empty), whatever the port.  The host must hold no `/`
/// and must not start with `[`.
#[verifier::rlimit(40)]
pub proof fn law_parse_url_with_port(https: bool, host: Seq<char>, port: u16, path: Seq<char>)
    requires
        forall|i: int| 0 <= i < host.len() ==> host[i] != '/',
        host.len() > 0 ==> host[0] != '[',
        path.len() > 0 ==> path[0] == '/',
    ensures
        spec_parse_url(scheme_prefix(https) + host + seq![':'] + decimal(port as nat) + path) == Ok::<
            UrlSpec,
            HttpError,
        >(
            UrlSpec {
                https,
                host,
                port,
                path: if path.len() == 0 {
                    seq!['/']
                } else {
                    path
                },
            },
        ),
{
    let dec = decimal(port as nat);
    let authority = host + seq![':'] + dec;
    let rest = authority + path;
    assert(scheme_prefix(https) =~= scheme_name(https) + seq![':', '/', '/']);
    assert(scheme_prefix(https) + host + seq![':'] + dec + path =~= scheme_name(https) + seq![
        ':',
        '/',
        '/',
    ] + rest);
    lemma_scheme_recognised(https, rest);
    lemma_decimal_digits(port as nat);
    assert forall|i: int| 0 <= i < authority.len() implies authority[i] != '/' by {
        if i < host.len() {
            assert(authority[i] == host[i]);
        } else if i > host.len() {
            assert(authority[i] == dec[i - host.len() - 1]);
        }
    }
    if path.len() == 0 {
        assert(rest =~= authority);
        lemma_no_slash(rest);
    } else {
        lemma_authority_then_path(authority, path);
    }
    if host.len() == 0 {
        assert(authority[0] == ':');
    } else {
        assert(authority[0] == host[0]);
    }
    lemma_host_and_port(host, port, default_port(https));
}

/// A URL without a port gets the scheme's default port, 443 for HTTPS and 80
/// for HTTP.  The host must hold no `/` or `:` and must not start with `[`.
pub proof fn law_parse_url_default_port(https: bool, host: Seq<char>, path: Seq<char>)
    requires
        forall|i: int| 0 <= i < host.len() ==> host[i] != '/' && host[i] != ':',
        host.len() > 0 ==> host[0] != '[',
        path.len() > 0 ==> path[0] == '/',
    ensures
        spec_parse_url(scheme_prefix(https) + host + path) == Ok::<UrlSpec, HttpError>(
            UrlSpec {
                https,
                host,
                port: if https {
                    443
                } else {
                    80
                },
                path: if path.len() == 0 {
                    seq!['/']
                } else {
                    path
                },
            },
        ),
{
    let rest = host + path;
    assert(scheme_prefix(https) =~= scheme_name(https) + seq![':', '/', '/']);
    assert(scheme_prefix(https) + host + path =~= scheme_name(https) + seq![':', '/', '/'] + rest);
    lemma_scheme_recognised(https, rest);
    if path.len() == 0 {
        assert(rest =~= host);
        lemma_no_slash(rest);
    } else {
        lemma_authority_then_path(host, path);
    }
    assert forall|j: int| !#[trigger] match_at(host, seq![':'], j) by {
        lemma_match_single(host, ':', j);
    }
    lemma_rfind(host, seq![':']);
}

/// A relative location (one that is neither a URL nor starts with `/`) is
/// resolved against the directory of the current path: the path up to and
/// including its last `/`, which is the whole path when it ends with `/`.
pub proof fn law_relative_redirect(current: UrlSpec, location: Seq<char>, last_slash: int)
    requires
        !starts_with(trim(location), seq!['/']),
        !starts_with(trim(location), http_prefix()),
        !starts_with(trim(location), https_prefix()),
        0 <= last_slash < current.path.len(),
        current.path[last_slash] == '/',
        forall|j: int| last_slash < j < current.path.len() ==> current.path[j] != '/',
    ensures
        spec_resolve_redirect(current, location) == scheme_prefix(current.https) + current.host
            + seq![':'] + decimal(current.port as nat) + current.path.take(last_slash + 1) + trim(
            location,
        ),
{
    let loc = trim(location);
    if starts_with(loc, seq!['/', '/']) {
        assert(loc[0int + 0int] == seq!['/', '/'][0]);
        assert forall|k: int| 0 <= k < 1 implies loc[0 + k] == seq!['/'][k] by {}
    }
    lemma_match_single(current.path, '/', last_slash);
    assert forall|j: int| last_slash < j implies !#[trigger] match_at(current.path, seq!['/'], j) by {
        lemma_match_single(current.path, '/', j);
    }
    lemma_rfind_is(current.path, seq!['/'], last_slash);
    assert(scheme_prefix(current.https) =~= scheme_name(current.https) + seq![':', '/', '/']);
}

/// A relative location against a path without any `/` is resolved under the
/// root: `/` then the location.
pub proof fn law_relative_redirect_from_bare_path(current: UrlSpec, location: Seq<char>)
    requires
        !starts_with(trim(location), seq!['/']),
        !starts_with(trim(location), http_prefix()),
        !starts_with(trim(location), https_prefix()),
        forall|j: int| 0 <= j < current.path.len() ==> current.path[j] != '/',
    ensures
        spec_resolve_redirect(current, location) == scheme_prefix(current.https) + current.host
            + seq![':'] + decimal(current.port as nat) + seq!['/'] + trim(location),
{
    let loc = trim(location);
    if starts_with(loc, seq!['/', '/']) {
        assert(loc[0int + 0int] == seq!['/', '/'][0]);
        assert forall|k: int| 0 <= k < 1 implies loc[0 + k] == seq!['/'][k] by {}
    }
    assert forall|j: int| !#[trigger] match_at(current.path, seq!['/'], j) by {
        lemma_match_single(current.path, '/', j);
    }
    lemma_rfind(current.path, seq!['/']);
    assert(scheme_prefix(current.https) =~= scheme_name(current.https) + seq![':', '/', '/']);
}

} // verus!
