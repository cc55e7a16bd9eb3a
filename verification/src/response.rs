//! HTTP responses: what the status line, the headers and the body of a raw
//! response are, and looking a header up by name.

use vstd::prelude::*;
use vstd::slice::{slice_subrange, slice_to_vec};
use vstd::utf8::{decode_utf8, encode_utf8_decode_utf8, valid_utf8};

use crate::chunked::{decode_chunked, find_header_end, header_end_bytes, spec_decode_chunked};
use crate::error::HttpError;
use crate::search::{find, find_char, find_crlf_char, is_first_match, lemma_find, lemma_find_is, match_at};
use crate::sys::{is_longest_valid_prefix, str_from_utf8, utf8_valid_up_to};
use crate::text::{
    eq_ignore_ascii_case, eq_ignore_ascii_case_chars, lemma_eq_ignore_ascii_case_trans,
    parse_unsigned, parse_unsigned_chars, str_chars, string_from_chars, trim, trim_bounds,
};

verus! {

/// A response: its status code, its headers in the order they came, and its
/// body (decoded when it was sent chunked).
pub struct Response {
    pub status: u16,
    pub headers: Vec<(String, String)>,
    pub body: Vec<u8>,
}

/// A response as mathematical values.
pub struct ResponseSpec {
    pub status: u16,
    pub headers: Seq<(Seq<char>, Seq<char>)>,
    pub body: Seq<u8>,
}

/// The names and values of a list of headers.
pub open spec fn fields_view(headers: Seq<(String, String)>) -> Seq<(Seq<char>, Seq<char>)> {
    headers.map_values(|h: (String, String)| (h.0@, h.1@))
}

impl View for Response {
    type V = ResponseSpec;

    open spec fn view(&self) -> ResponseSpec {
        ResponseSpec { status: self.status, headers: fields_view(self.headers@), body: self.body@ }
    }
}

/// The characters CR LF.
pub open spec fn crlf() -> Seq<char> {
    seq!['\r', '\n']
}

/// The pieces of `s` between the occurrences of `sep` (`str::split`).
pub open spec fn split(s: Seq<char>, sep: Seq<char>) -> Seq<Seq<char>>
    decreases s.len(),
    when sep.len() > 0
{
    match find(s, sep) {
        Some(i) => seq![s.take(i)] + split(s.skip(i + sep.len()), sep),
        None => seq![s],
    }
}

/// The header that a line holds: the name before the first `:` and the value
/// after it, both trimmed; a line without `:` holds none.
pub open spec fn header_field(line: Seq<char>) -> Seq<(Seq<char>, Seq<char>)> {
    match find(line, seq![':']) {
        Some(p) => seq![(trim(line.take(p)), trim(line.skip(p + 1)))],
        None => Seq::empty(),
    }
}

/// The headers that a list of lines holds, in order.
pub open spec fn header_fields(lines: Seq<Seq<char>>) -> Seq<(Seq<char>, Seq<char>)>
    decreases lines.len(),
{
    if lines.len() == 0 {
        Seq::empty()
    } else {
        header_field(lines[0]) + header_fields(lines.drop_first())
    }
}

/// The second space-separated part of a status line, where the code stands
/// (what the second item of `splitn(3, ' ')` is).
pub open spec fn status_code_text(line: Seq<char>) -> Option<Seq<char>> {
    match find(line, seq![' ']) {
        None => None,
        Some(p) => {
            let rest = line.skip(p + 1);
            match find(rest, seq![' ']) {
                Some(q) => Some(rest.take(q)),
                None => Some(rest),
            }
        },
    }
}

/// The status code of a status line.
pub open spec fn status_of(line: Seq<char>) -> Result<u16, HttpError> {
    match status_code_text(line) {
        None => Err(HttpError::InvalidStatusLine),
        Some(code) => match parse_unsigned(code, 10, 65535) {
            None => Err(HttpError::InvalidStatusCode),
            Some(s) => Ok(s as u16),
        },
    }
}

pub open spec fn transfer_encoding() -> Seq<char> {
    seq!['T', 'r', 'a', 'n', 's', 'f', 'e', 'r', '-', 'E', 'n', 'c', 'o', 'd', 'i', 'n', 'g']
}

pub open spec fn chunked_coding() -> Seq<char> {
    seq!['c', 'h', 'u', 'n', 'k', 'e', 'd']
}

/// A comma-separated list of codings names `chunked`, in any case and with
/// any whitespace around it.
pub open spec fn lists_chunked(value: Seq<char>) -> bool {
    exists|j: int|
        0 <= j < split(value, seq![',']).len() && eq_ignore_ascii_case(
            trim(#[trigger] split(value, seq![','])[j]),
            chunked_coding(),
        )
}

/// Some `Transfer-Encoding` header (in any case) lists `chunked`.
pub open spec fn is_chunked(headers: Seq<(Seq<char>, Seq<char>)>) -> bool {
    exists|i: int|
        0 <= i < headers.len() && eq_ignore_ascii_case(#[trigger] headers[i].0, transfer_encoding())
            && lists_chunked(headers[i].1)
}

/// What a raw response means.  The header block runs to the first CR LF CR LF
/// and must be UTF-8; its first line is the status line, and the other lines
/// are headers.  The body is what follows, decoded when it is chunked.
pub open spec fn spec_read_response(data: Seq<u8>) -> Result<ResponseSpec, HttpError> {
    match find(data, header_end_bytes()) {
        None => Err(HttpError::HeadersNotFound),
        Some(end) => {
            let head = data.take(end);
            if !valid_utf8(head) {
                Err(HttpError::InvalidUtf8)
            } else {
                let lines = split(decode_utf8(head), crlf());
                match status_of(lines[0]) {
                    Err(e) => Err(e),
                    Ok(status) => {
                        let headers = header_fields(lines.drop_first());
                        let raw = data.skip(end + 4);
                        if is_chunked(headers) {
                            match spec_decode_chunked(raw) {
                                Ok(body) => Ok(ResponseSpec { status, headers, body }),
                                Err(e) => Err(e),
                            }
                        } else {
                            Ok(ResponseSpec { status, headers, body: raw })
                        }
                    },
                }
            }
        },
    }
}

/// `i` is the first header whose name is `name`, ignoring ASCII case.
pub open spec fn is_first_named(headers: Seq<(Seq<char>, Seq<char>)>, name: Seq<char>, i: int) -> bool {
    &&& 0 <= i < headers.len()
    &&& eq_ignore_ascii_case(headers[i].0, name)
    &&& forall|j: int| 0 <= j < i ==> !eq_ignore_ascii_case(#[trigger] headers[j].0, name)
}

/// The value of the first header named `name`, ignoring ASCII case.
pub open spec fn spec_header(headers: Seq<(Seq<char>, Seq<char>)>, name: Seq<char>) -> Option<
    Seq<char>,
> {
    if exists|i: int| is_first_named(headers, name, i) {
        Some(headers[choose|i: int| is_first_named(headers, name, i)].1)
    } else {
        None
    }
}

proof fn lemma_first_named_unique(headers: Seq<(Seq<char>, Seq<char>)>, name: Seq<char>, i: int)
    requires
        is_first_named(headers, name, i),
    ensures
        spec_header(headers, name) == Some(headers[i].1),
{
    let k = choose|k: int| is_first_named(headers, name, k);
    assert(is_first_named(headers, name, k));
    if k < i {
        assert(!eq_ignore_ascii_case(headers[k].0, name));
    } else if i < k {
        assert(!eq_ignore_ascii_case(headers[i].0, name));
    }
}

proof fn lemma_first_named_exists(headers: Seq<(Seq<char>, Seq<char>)>, name: Seq<char>, k: int)
    requires
        0 <= k < headers.len(),
        eq_ignore_ascii_case(headers[k].0, name),
    ensures
        exists|i: int| is_first_named(headers, name, i),
    decreases k,
{
    if exists|j: int| 0 <= j < k && eq_ignore_ascii_case(#[trigger] headers[j].0, name) {
        let j = choose|j: int| 0 <= j < k && eq_ignore_ascii_case(#[trigger] headers[j].0, name);
        lemma_first_named_exists(headers, name, j);
    } else {
        assert(is_first_named(headers, name, k));
    }
}

/// A header is found exactly when some header has that name.
pub proof fn lemma_spec_header_none(headers: Seq<(Seq<char>, Seq<char>)>, name: Seq<char>)
    ensures
        spec_header(headers, name) is None <==> forall|i: int|
            0 <= i < headers.len() ==> !eq_ignore_ascii_case(#[trigger] headers[i].0, name),
{
    if exists|i: int| 0 <= i < headers.len() && eq_ignore_ascii_case(#[trigger] headers[i].0, name) {
        let i = choose|i: int|
            0 <= i < headers.len() && eq_ignore_ascii_case(#[trigger] headers[i].0, name);
        lemma_first_named_exists(headers, name, i);
    }
}

/// Looking a header up does not depend on the case of the name asked for:
/// two names equal but for ASCII case find the same value.
pub proof fn lemma_header_ignores_case(
    headers: Seq<(Seq<char>, Seq<char>)>,
    name: Seq<char>,
    other: Seq<char>,
)
    requires
        eq_ignore_ascii_case(name, other),
    ensures
        spec_header(headers, name) == spec_header(headers, other),
{
    lemma_eq_ignore_ascii_case_trans(name, other, other);
    assert forall|j: int| 0 <= j < headers.len() implies (eq_ignore_ascii_case(
        #[trigger] headers[j].0,
        name,
    ) <==> eq_ignore_ascii_case(headers[j].0, other)) by {
        if eq_ignore_ascii_case(headers[j].0, name) {
            lemma_eq_ignore_ascii_case_trans(headers[j].0, name, other);
        }
        if eq_ignore_ascii_case(headers[j].0, other) {
            lemma_eq_ignore_ascii_case_trans(headers[j].0, other, name);
        }
    }
    lemma_spec_header_none(headers, name);
    lemma_spec_header_none(headers, other);
    if exists|i: int| is_first_named(headers, name, i) {
        let i = choose|i: int| is_first_named(headers, name, i);
        assert(is_first_named(headers, other, i));
        lemma_first_named_unique(headers, name, i);
        lemma_first_named_unique(headers, other, i);
    }
}

impl Response {
    /// The body as bytes.
    pub fn as_bytes(&self) -> (b: &[u8])
        ensures
            b@ == self.body@,
    {
        self.body.as_slice()
    }

    /// The body as text: it succeeds exactly when the body is valid UTF-8.
    pub fn as_str(&self) -> (res: Result<&str, std::str::Utf8Error>)
        ensures
            res is Ok <==> valid_utf8(self.body@),
            res matches Ok(s) ==> s@ == decode_utf8(self.body@),
            res matches Err(e) ==> is_longest_valid_prefix(self.body@, utf8_valid_up_to(e) as int),
    {
        let res = str_from_utf8(self.body.as_slice());
        proof {
            if let Ok(s) = res {
                encode_utf8_decode_utf8(s@);
            }
        }
        res
    }

    /// The value of the first header called `name`, ignoring ASCII case.
    pub fn header(&self, name: &str) -> (res: Option<&str>)
        ensures
            match res {
                Some(v) => spec_header(self@.headers, name@) == Some(v@),
                None => spec_header(self@.headers, name@) is None,
            },
    {
        let wanted = str_chars(name);
        let ghost hs = self@.headers;
        let mut i: usize = 0;
        while i < self.headers.len()
            invariant
                hs == fields_view(self.headers@),
                wanted@ == name@,
                i <= self.headers@.len(),
                forall|j: int| 0 <= j < i ==> !eq_ignore_ascii_case(#[trigger] hs[j].0, name@),
            decreases self.headers@.len() - i,
        {
            let key = str_chars(self.headers[i].0.as_str());
            assert(key@.subrange(0, key@.len() as int) =~= key@);
            if eq_ignore_ascii_case_chars(&key, 0, key.len(), &wanted) {
                proof {
                    assert(is_first_named(hs, name@, i as int));
                    lemma_first_named_unique(hs, name@, i as int);
                }
                return Some(self.headers[i].1.as_str());
            }
            i = i + 1;
        }
        proof {
            lemma_spec_header_none(hs, name@);
        }
        None
    }
}

/// The status code of the line `v[0..line_end]`.
fn read_status(v: &Vec<char>, line_end: usize) -> (res: Result<u16, HttpError>)
    requires
        line_end <= v@.len(),
    ensures
        match res {
            Ok(s) => status_of(v@.subrange(0, line_end as int)) == Ok::<u16, HttpError>(s),
            Err(e) => status_of(v@.subrange(0, line_end as int)) == Err::<u16, HttpError>(e),
        },
{
    let ghost line = v@.subrange(0, line_end as int);
    let p = match find_char(v, 0, line_end, ' ') {
        Some(p) => p,
        None => {
            return Err(HttpError::InvalidStatusLine);
        },
    };
    let ghost rest = line.skip(p + 1);
    assert(rest =~= v@.subrange(p + 1, line_end as int));
    let code_end: usize = match find_char(v, p + 1, line_end, ' ') {
        Some(q) => q,
        None => line_end,
    };
    assert(status_code_text(line) == Some(v@.subrange(p + 1, code_end as int)));
    match parse_unsigned_chars(v, p + 1, code_end, 10, 65535) {
        Some(s) => Ok(s as u16),
        None => Err(HttpError::InvalidStatusCode),
    }
}

/// The header held by the line `v[from..to]`, if any.
fn field_of_line(v: &Vec<char>, from: usize, to: usize) -> (res: Option<(String, String)>)
    requires
        from <= to <= v@.len(),
    ensures
        match res {
            Some(f) => header_field(v@.subrange(from as int, to as int)) == seq![(f.0@, f.1@)],
            None => header_field(v@.subrange(from as int, to as int)) == Seq::<
                (Seq<char>, Seq<char>),
            >::empty(),
        },
{
    let ghost line = v@.subrange(from as int, to as int);
    match find_char(v, from, to, ':') {
        None => None,
        Some(p) => {
            assert(line.take(p - from) =~= v@.subrange(from as int, p as int));
            assert(line.skip(p - from + 1) =~= v@.subrange(p + 1, to as int));
            let (ka, kb) = trim_bounds(v, from, p);
            let (va, vb) = trim_bounds(v, p + 1, to);
            let key = string_from_chars(v, ka, kb);
            let value = string_from_chars(v, va, vb);
            Some((key, value))
        },
    }
}

proof fn lemma_header_fields_cons(x: Seq<char>, rest: Seq<Seq<char>>)
    ensures
        header_fields(seq![x] + rest) == header_field(x) + header_fields(rest),
{
    let l = seq![x] + rest;
    assert(l[0] == x);
    assert(l.drop_first() =~= rest);
}

/// The headers on the lines of `v[start..]`.
fn collect_headers(v: &Vec<char>, start: usize) -> (fields: Vec<(String, String)>)
    requires
        start <= v@.len(),
    ensures
        fields_view(fields@) == header_fields(split(v@.subrange(start as int, v@.len() as int), crlf())),
{
    let n = v.len();
    let ghost whole = header_fields(split(v@.subrange(start as int, n as int), crlf()));
    let mut fields: Vec<(String, String)> = Vec::new();
    let mut pos: usize = start;
    assert(fields_view(fields@) + whole =~= whole);
    loop
        invariant
            n == v@.len(),
            start <= pos <= n,
            whole == header_fields(split(v@.subrange(start as int, n as int), crlf())),
            whole == fields_view(fields@) + header_fields(split(v@.subrange(pos as int, n as int), crlf())),
        decreases n - pos,
    {
        let ghost rem = v@.subrange(pos as int, n as int);
        let ghost before = fields@;
        let found = find_crlf_char(v, pos, n);
        let line_end: usize = match found {
            Some(i) => i,
            None => n,
        };
        let ghost line = v@.subrange(pos as int, line_end as int);
        let ghost later = match found {
            Some(i) => split(v@.subrange(i + 2, n as int), crlf()),
            None => Seq::<Seq<char>>::empty(),
        };
        proof {
            match found {
                Some(i) => {
                    assert(rem.take(i - pos) =~= line);
                    assert(rem.skip(i - pos + 2) =~= v@.subrange(i + 2, n as int));
                    assert(split(rem, crlf()) == seq![line] + later);
                },
                None => {
                    assert(rem =~= line);
                    assert(seq![line] + later =~= seq![line]);
                },
            }
            lemma_header_fields_cons(line, later);
        }
        match field_of_line(v, pos, line_end) {
            Some(f) => {
                fields.push(f);
                assert(fields_view(fields@) =~= fields_view(before) + header_field(line));
            },
            None => {
                assert(fields_view(fields@) =~= fields_view(before) + header_field(line));
            },
        }
        assert(whole =~= fields_view(fields@) + header_fields(later));
        match found {
            Some(i) => {
                pos = i + 2;
            },
            None => {
                assert(header_fields(later) =~= Seq::<(Seq<char>, Seq<char>)>::empty());
                assert(whole =~= fields_view(fields@));
                return fields;
            },
        }
    }
}

proof fn lemma_exists_cons(x: Seq<char>, rest: Seq<Seq<char>>)
    ensures
        (exists|j: int|
            0 <= j < (seq![x] + rest).len() && eq_ignore_ascii_case(
                trim(#[trigger] (seq![x] + rest)[j]),
                chunked_coding(),
            )) <==> (eq_ignore_ascii_case(trim(x), chunked_coding()) || exists|j: int|
            0 <= j < rest.len() && eq_ignore_ascii_case(trim(#[trigger] rest[j]), chunked_coding())),
{
    let l = seq![x] + rest;
    if exists|j: int| 0 <= j < rest.len() && eq_ignore_ascii_case(trim(#[trigger] rest[j]), chunked_coding()) {
        let j = choose|j: int|
            0 <= j < rest.len() && eq_ignore_ascii_case(trim(#[trigger] rest[j]), chunked_coding());
        assert(l[j + 1] == rest[j]);
    }
    if exists|j: int| 0 <= j < l.len() && eq_ignore_ascii_case(trim(#[trigger] l[j]), chunked_coding()) {
        let j = choose|j: int| 0 <= j < l.len() && eq_ignore_ascii_case(trim(#[trigger] l[j]), chunked_coding());
        if j > 0 {
            assert(l[j] == rest[j - 1]);
        }
    }
    assert(l[0] == x);
}

/// Whether the comma-separated list `v` names the `chunked` coding.
fn lists_chunked_chars(v: &Vec<char>) -> (r: bool)
    ensures
        r == lists_chunked(v@),
{
    let n = v.len();
    let coding: Vec<char> = vec!['c', 'h', 'u', 'n', 'k', 'e', 'd'];
    assert(coding@ =~= chunked_coding());
    let ghost want = lists_chunked(v@);
    assert(v@.subrange(0, n as int) =~= v@);
    let mut pos: usize = 0;
    loop
        invariant
            n == v@.len(),
            pos <= n,
            coding@ == chunked_coding(),
            want == lists_chunked(v@),
            want == exists|j: int|
                0 <= j < split(v@.subrange(pos as int, n as int), seq![',']).len()
                    && eq_ignore_ascii_case(
                    trim(#[trigger] split(v@.subrange(pos as int, n as int), seq![','])[j]),
                    chunked_coding(),
                ),
        decreases n - pos,
    {
        let ghost rem = v@.subrange(pos as int, n as int);
        let found = find_char(v, pos, n, ',');
        let piece_end: usize = match found {
            Some(i) => i,
            None => n,
        };
        let ghost piece = v@.subrange(pos as int, piece_end as int);
        let ghost later = match found {
            Some(i) => split(v@.subrange(i + 1, n as int), seq![',']),
            None => Seq::<Seq<char>>::empty(),
        };
        proof {
            match found {
                Some(i) => {
                    assert(rem.take(i - pos) =~= piece);
                    assert(rem.skip(i - pos + 1) =~= v@.subrange(i + 1, n as int));
                },
                None => {
                    assert(rem =~= piece);
                    assert(seq![piece] + later =~= seq![piece]);
                },
            }
            assert(split(rem, seq![',']) == seq![piece] + later);
            lemma_exists_cons(piece, later);
        }
        let (a, b) = trim_bounds(v, pos, piece_end);
        if eq_ignore_ascii_case_chars(v, a, b, &coding) {
            return true;
        }
        match found {
            Some(i) => {
                pos = i + 1;
            },
            None => {
                return false;
            },
        }
    }
}

/// Whether some `Transfer-Encoding` header lists `chunked`.
fn is_chunked_fields(headers: &Vec<(String, String)>) -> (r: bool)
    ensures
        r == is_chunked(fields_view(headers@)),
{
    let ghost hs = fields_view(headers@);
    let name: Vec<char> = vec![
        'T',
        'r',
        'a',
        'n',
        's',
        'f',
        'e',
        'r',
        '-',
        'E',
        'n',
        'c',
        'o',
        'd',
        'i',
        'n',
        'g',
    ];
    assert(name@ =~= transfer_encoding());
    let mut i: usize = 0;
    while i < headers.len()
        invariant
            hs == fields_view(headers@),
            name@ == transfer_encoding(),
            i <= headers@.len(),
            forall|j: int|
                0 <= j < i ==> !(eq_ignore_ascii_case(#[trigger] hs[j].0, transfer_encoding())
                    && lists_chunked(hs[j].1)),
        decreases headers@.len() - i,
    {
        let key = str_chars(headers[i].0.as_str());
        assert(key@.subrange(0, key@.len() as int) =~= key@);
        if eq_ignore_ascii_case_chars(&key, 0, key.len(), &name) {
            let value = str_chars(headers[i].1.as_str());
            if lists_chunked_chars(&value) {
                assert(eq_ignore_ascii_case(hs[i as int].0, transfer_encoding()) && lists_chunked(
                    hs[i as int].1,
                ));
                return true;
            }
        }
        i = i + 1;
    }
    false
}

/// Reads a raw response: status line, headers and body.
pub fn read_response(data: &[u8]) -> (res: Result<Response, HttpError>)
    ensures
        match res {
            Ok(r) => spec_read_response(data@) == Ok::<ResponseSpec, HttpError>(r@),
            Err(e) => spec_read_response(data@) == Err::<ResponseSpec, HttpError>(e),
        },
{
    let header_end = match find_header_end(data) {
        Some(i) => i,
        None => {
            return Err(HttpError::HeadersNotFound);
        },
    };
    proof {
        lemma_find(data@, header_end_bytes());
        assert(header_end_bytes().len() == 4);
        assert(match_at(data@, header_end_bytes(), header_end as int));
    }
    let len = data.len();
    assert(header_end + 4 <= len);
    let head = slice_subrange(data, 0, header_end);
    let raw_body = slice_subrange(data, header_end + 4, len);
    assert(head@ =~= data@.take(header_end as int));
    assert(raw_body@ =~= data@.skip(header_end + 4));
    let text = match str_from_utf8(head) {
        Ok(t) => t,
        Err(_) => {
            return Err(HttpError::InvalidUtf8);
        },
    };
    proof {
        encode_utf8_decode_utf8(text@);
    }
    let v = str_chars(text);
    let n = v.len();
    let ghost lines = split(v@, crlf());
    assert(v@.subrange(0, n as int) =~= v@);
    let first = find_crlf_char(&v, 0, n);
    let line_end: usize = match first {
        Some(i) => i,
        None => n,
    };
    proof {
        match first {
            Some(i) => {
                assert(lines == seq![v@.take(i as int)] + split(v@.skip(i + 2), crlf()));
                assert(v@.take(i as int) =~= v@.subrange(0, i as int));
                assert(v@.skip(i + 2) =~= v@.subrange(i + 2, n as int));
                assert(lines.drop_first() =~= split(v@.subrange(i + 2, n as int), crlf()));
            },
            None => {
                assert(lines == seq![v@]);
                assert(lines.drop_first() =~= Seq::<Seq<char>>::empty());
            },
        }
    }
    let status = match read_status(&v, line_end) {
        Ok(s) => s,
        Err(e) => {
            return Err(e);
        },
    };
    let headers = match first {
        Some(i) => collect_headers(&v, i + 2),
        None => Vec::new(),
    };
    assert(fields_view(headers@) == header_fields(lines.drop_first()));
    let body = if is_chunked_fields(&headers) {
        match decode_chunked(raw_body) {
            Ok(b) => b,
            Err(e) => {
                return Err(e);
            },
        }
    } else {
        slice_to_vec(raw_body)
    };
    Ok(Response { status, headers, body })
}

/// Where the body of a read response comes from: the bytes after the first
/// CR LF CR LF, decoded as chunks when any header, wherever it stands in the
/// list, is named `Transfer-Encoding` (in any case) and lists `chunked`, and
/// taken as they are otherwise.
pub proof fn law_response_body(data: Seq<u8>, end: int)
    requires
        spec_read_response(data) is Ok,
        is_first_match(data, header_end_bytes(), end),
    ensures
        ({
            let r = spec_read_response(data)->Ok_0;
            &&& (exists|i: int|
                0 <= i < r.headers.len() && eq_ignore_ascii_case(
                    #[trigger] r.headers[i].0,
                    transfer_encoding(),
                ) && lists_chunked(r.headers[i].1)) ==> spec_decode_chunked(data.skip(end + 4))
                == Ok::<Seq<u8>, HttpError>(r.body)
            &&& (forall|i: int|
                0 <= i < r.headers.len() ==> !(eq_ignore_ascii_case(
                    #[trigger] r.headers[i].0,
                    transfer_encoding(),
                ) && lists_chunked(r.headers[i].1))) ==> r.body == data.skip(end + 4)
        }),
{
    lemma_find_is(data, header_end_bytes(), end);
}

/// Whether a body is chunked does not depend on where the
/// `Transfer-Encoding` header stands: moving a header to the front of the
/// list leaves the decision as it was.
pub proof fn law_chunked_any_position(headers: Seq<(Seq<char>, Seq<char>)>, i: int)
    requires
        0 <= i < headers.len(),
    ensures
        is_chunked(headers) == is_chunked(seq![headers[i]] + headers.remove(i)),
        eq_ignore_ascii_case(headers[i].0, transfer_encoding()) && lists_chunked(headers[i].1)
            ==> is_chunked(headers),
{
    let moved = seq![headers[i]] + headers.remove(i);
    assert(moved[0] == headers[i]);
    assert forall|j: int| #![trigger headers[j]] 0 <= j < headers.len() implies exists|k: int|
        0 <= k < moved.len() && #[trigger] moved[k] == headers[j] by {
        if j == i {
            assert(moved[0] == headers[j]);
        } else if j < i {
            assert(moved[j + 1] == headers[j]);
        } else {
            assert(moved[j] == headers[j]);
        }
    }
    assert forall|k: int| #![trigger moved[k]] 0 <= k < moved.len() implies exists|j: int|
        0 <= j < headers.len() && #[trigger] headers[j] == moved[k] by {
        if k == 0 {
            assert(headers[i] == moved[k]);
        } else if k - 1 < i {
            assert(headers[k - 1] == moved[k]);
        } else {
            assert(headers[k] == moved[k]);
        }
    }
    if is_chunked(headers) {
        let j = choose|j: int|
            0 <= j < headers.len() && eq_ignore_ascii_case(#[trigger] headers[j].0, transfer_encoding())
                && lists_chunked(headers[j].1);
        let k = choose|k: int| 0 <= k < moved.len() && #[trigger] moved[k] == headers[j];
        assert(eq_ignore_ascii_case(moved[k].0, transfer_encoding()) && lists_chunked(moved[k].1));
    }
    if is_chunked(moved) {
        let k = choose|k: int|
            0 <= k < moved.len() && eq_ignore_ascii_case(#[trigger] moved[k].0, transfer_encoding())
                && lists_chunked(moved[k].1);
        let j = choose|j: int| 0 <= j < headers.len() && #[trigger] headers[j] == moved[k];
        assert(eq_ignore_ascii_case(headers[j].0, transfer_encoding()) && lists_chunked(headers[j].1));
    }
}

/// A header lookup finds the value of the first header with that name
/// (ignoring ASCII case), and finds nothing when no header has it.
pub proof fn law_header_first_match(headers: Seq<(Seq<char>, Seq<char>)>, name: Seq<char>, i: int)
    requires
        0 <= i < headers.len(),
        eq_ignore_ascii_case(headers[i].0, name),
        forall|j: int| 0 <= j < i ==> !eq_ignore_ascii_case(#[trigger] headers[j].0, name),
    ensures
        spec_header(headers, name) == Some(headers[i].1),
{
    lemma_first_named_unique(headers, name, i);
}

} // verus!
