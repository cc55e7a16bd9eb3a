//! The text of a GET request.

use vstd::prelude::*;

use crate::error::HttpError;
use crate::text::{has_line_break, has_line_break_chars, str_chars};

verus! {

/// The names and values of the headers a caller adds to a request.
pub open spec fn extra_fields(headers: Seq<(&str, &str)>) -> Seq<(Seq<char>, Seq<char>)> {
    headers.map_values(|h: (&str, &str)| (h.0@, h.1@))
}

/// A header's name or value holds a CR or an LF.
pub open spec fn is_invalid_field(field: (Seq<char>, Seq<char>)) -> bool {
    has_line_break(field.0) || has_line_break(field.1)
}

/// Some added header name or value holds a CR or an LF.
pub open spec fn has_invalid_header(fields: Seq<(Seq<char>, Seq<char>)>) -> bool {
    exists|i: int| 0 <= i < fields.len() && is_invalid_field(#[trigger] fields[i])
}

/// The request line and the headers that every request carries.
pub open spec fn request_head(host: Seq<char>, path: Seq<char>) -> Seq<char> {
    "GET "@ + path + " HTTP/1.1\r\nHost: "@ + host
        + "\r\nUser-Agent: peers_updater\r\nAccept: */*\r\nConnection: close\r\n"@
}

/// One `name: value` line for each added header, in order.
pub open spec fn header_lines(fields: Seq<(Seq<char>, Seq<char>)>) -> Seq<char>
    decreases fields.len(),
{
    if fields.len() == 0 {
        Seq::empty()
    } else {
        header_lines(fields.drop_last()) + fields.last().0 + ": "@ + fields.last().1 + "\r\n"@
    }
}

/// The whole text of a GET request for `path` on `host`.
pub open spec fn request_text(
    host: Seq<char>,
    path: Seq<char>,
    fields: Seq<(Seq<char>, Seq<char>)>,
) -> Seq<char> {
    request_head(host, path) + header_lines(fields) + "\r\n"@
}

/// `k` is the first added header that holds a CR or an LF.
pub open spec fn is_first_invalid(fields: Seq<(Seq<char>, Seq<char>)>, k: int) -> bool {
    &&& 0 <= k < fields.len()
    &&& is_invalid_field(fields[k])
    &&& forall|j: int| 0 <= j < k ==> !is_invalid_field(#[trigger] fields[j])
}

/// Writes the GET request for `path` on `host` with the added `headers` to
/// the end of `out`, line by line.  A header name or value that holds a CR or
/// an LF is refused, so that no caller can inject lines into the request:
/// the request stops there, after the request line, the fixed headers and
/// the added headers before the refused one, and no blank line ends it.
pub fn write_request(out: &mut String, host: &str, path: &str, headers: &[(&str, &str)]) -> (res:
    Result<(), HttpError>)
    ensures
        res is Err <==> has_invalid_header(extra_fields(headers@)),
        res is Ok ==> final(out)@ == old(out)@ + request_text(host@, path@, extra_fields(headers@)),
        res matches Err(e) ==> e == HttpError::InvalidHeader && exists|k: int|
            is_first_invalid(extra_fields(headers@), k) && final(out)@ == old(out)@ + request_head(
                host@,
                path@,
            ) + header_lines(#[trigger] extra_fields(headers@).take(k)),
{
    let ghost fields = extra_fields(headers@);
    let ghost start = out@;
    assert(start == old(out)@);
    out.append("GET ");
    out.append(path);
    out.append(" HTTP/1.1\r\nHost: ");
    out.append(host);
    out.append("\r\nUser-Agent: peers_updater\r\nAccept: */*\r\nConnection: close\r\n");
    assert(fields.take(0) =~= Seq::<(Seq<char>, Seq<char>)>::empty());
    assert(out@ =~= start + request_head(host@, path@) + header_lines(fields.take(0)));
    let mut i: usize = 0;
    while i < headers.len()
        invariant
            fields == extra_fields(headers@),
            start == old(out)@,
            i <= headers@.len(),
            out@ == start + request_head(host@, path@) + header_lines(fields.take(i as int)),
            forall|j: int| 0 <= j < i ==> !is_invalid_field(#[trigger] fields[j]),
        decreases headers@.len() - i,
    {
        let (name, value) = headers[i];
        let name_chars = str_chars(name);
        let value_chars = str_chars(value);
        if has_line_break_chars(&name_chars) || has_line_break_chars(&value_chars) {
            assert(fields.len() == headers@.len());
            assert(fields[i as int] == (name@, value@));
            assert(is_invalid_field(fields[i as int]));
            assert(is_first_invalid(extra_fields(headers@), i as int));
            assert(out@ == start + request_head(host@, path@) + header_lines(
                extra_fields(headers@).take(i as int),
            ));
            return Err(HttpError::InvalidHeader);
        }
        let ghost before = out@;
        out.append(name);
        out.append(": ");
        out.append(value);
        out.append("\r\n");
        proof {
            let t = fields.take(i + 1);
            assert(t.drop_last() =~= fields.take(i as int));
            assert(t.last() == (name@, value@));
            assert(out@ =~= start + request_head(host@, path@) + header_lines(t));
        }
        i = i + 1;
    }
    assert(fields.take(i as int) =~= fields);
    out.append("\r\n");
    assert(out@ =~= start + request_text(host@, path@, fields));
    Ok(())
}

/// A header is refused exactly when a CR or an LF occurs in its name or in
/// its value; every other character, `:` and spaces among them, is allowed.
pub proof fn law_refused_fields(field: (Seq<char>, Seq<char>))
    ensures
        is_invalid_field(field) <==> (exists|i: int|
            0 <= i < field.0.len() && (field.0[i] == '\r' || field.0[i] == '\n')) || (exists|i: int|
            0 <= i < field.1.len() && (field.1[i] == '\r' || field.1[i] == '\n')),
{
}

/// A request is refused exactly when some added header holds a CR or an LF
/// in its name or its value.
pub proof fn law_refused_requests(fields: Seq<(Seq<char>, Seq<char>)>)
    ensures
        has_invalid_header(fields) <==> exists|k: int|
            #![trigger fields[k]]
            0 <= k < fields.len() && ((exists|i: int|
                0 <= i < fields[k].0.len() && (#[trigger] fields[k].0[i] == '\r' || fields[k].0[i]
                    == '\n')) || (exists|i: int|
                0 <= i < fields[k].1.len() && (#[trigger] fields[k].1[i] == '\r' || fields[k].1[i]
                    == '\n'))),
{
    assert forall|k: int| 0 <= k < fields.len() implies (is_invalid_field(#[trigger] fields[k]) <==> ((
    exists|i: int|
        0 <= i < fields[k].0.len() && (#[trigger] fields[k].0[i] == '\r' || fields[k].0[i] == '\n'))
        || (exists|i: int|
        0 <= i < fields[k].1.len() && (#[trigger] fields[k].1[i] == '\r' || fields[k].1[i]
            == '\n')))) by {
        law_refused_fields(fields[k]);
    }
}

} // verus!
