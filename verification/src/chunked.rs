//! Finding line ends in a response, and decoding a body sent with
//! `Transfer-Encoding: chunked`.

use vstd::prelude::*;
use vstd::slice::{slice_subrange, slice_to_vec};
use vstd::utf8::{
    decode_utf8, encode_utf8, encode_utf8_decode_utf8, encode_utf8_valid_utf8, is_ascii_chars,
    is_ascii_chars_encode_utf8, valid_utf8,
};

use crate::error::HttpError;
use crate::search::{find, find_bytes, lemma_find, lemma_find_is, lemma_match_single, match_at};
use crate::sys::str_from_utf8;
use crate::text::{
    digits_value, is_whitespace, parse_unsigned, parse_unsigned_chars,
    str_chars, trim, trim_bounds, trim_end, trim_start,
};

verus! {

/// The bytes CR LF.
pub open spec fn crlf_bytes() -> Seq<u8> {
    seq![13u8, 10u8]
}

/// The bytes CR LF CR LF, which end the header block of a response.
pub open spec fn header_end_bytes() -> Seq<u8> {
    seq![13u8, 10u8, 13u8, 10u8]
}

/// The index of the first CR LF in `data`.
pub fn find_crlf(data: &[u8]) -> (res: Option<usize>)
    ensures
        match res {
            Some(i) => find(data@, crlf_bytes()) == Some(i as int),
            None => find(data@, crlf_bytes()) is None,
        },
{
    let pat: Vec<u8> = vec![13u8, 10u8];
    assert(pat@ =~= crlf_bytes());
    find_bytes(data, pat.as_slice())
}

/// The index of the first CR LF CR LF in `data`, where the headers end.
pub fn find_header_end(data: &[u8]) -> (res: Option<usize>)
    ensures
        match res {
            Some(i) => find(data@, header_end_bytes()) == Some(i as int),
            None => find(data@, header_end_bytes()) is None,
        },
{
    let pat: Vec<u8> = vec![13u8, 10u8, 13u8, 10u8];
    assert(pat@ =~= header_end_bytes());
    find_bytes(data, pat.as_slice())
}

/// The hexadecimal size at the start of a chunk-size line: the part before
/// any `;`, which begins the chunk extensions.
pub open spec fn chunk_size_field(line: Seq<u8>) -> Seq<u8> {
    match find(line, seq![59u8]) {
        Some(k) => line.take(k),
        None => line,
    }
}

/// The size that a chunk-size field announces: the field must be UTF-8, and
/// once trimmed of whitespace it must be a hexadecimal `usize`.
pub open spec fn chunk_size(field: Seq<u8>) -> Result<nat, HttpError> {
    if !valid_utf8(field) {
        Err(HttpError::InvalidUtf8)
    } else {
        match parse_unsigned(trim(decode_utf8(field)), 16, usize::MAX as nat) {
            Some(n) => Ok(n),
            None => Err(HttpError::InvalidChunkSize),
        }
    }
}

/// The body that the chunks of `data` from offset `pos` on carry.  Each chunk
/// is a size line, that many bytes of data and a CR LF; a chunk of size zero
/// ends the body, and whatever follows it (trailers) is ignored.
pub open spec fn chunks_from(data: Seq<u8>, pos: int) -> Result<Seq<u8>, HttpError>
    decreases data.len() - pos,
    when 0 <= pos <= data.len()
{
    let rest = data.skip(pos);
    match find(rest, crlf_bytes()) {
        None => Err(HttpError::ChunkSizeNotFound),
        Some(line_end) => match chunk_size(chunk_size_field(rest.take(line_end))) {
            Err(e) => Err(e),
            Ok(size) => {
                let start = pos + line_end + 2;
                let end = start + size;
                if size == 0 {
                    Ok(Seq::empty())
                } else if end > usize::MAX {
                    Err(HttpError::ChunkSizeOverflow)
                } else if end > data.len() {
                    Err(HttpError::IncompleteChunk)
                } else if data.len() < end + 2 || data[end] != 13u8 || data[end + 1] != 10u8 {
                    Err(HttpError::MissingChunkCrlf)
                } else {
                    match chunks_from(data, end + 2) {
                        Ok(tail) => Ok(data.subrange(start, end) + tail),
                        Err(e) => Err(e),
                    }
                }
            },
        },
    }
}

/// The body that a chunked encoding `data` carries.
pub open spec fn spec_decode_chunked(data: Seq<u8>) -> Result<Seq<u8>, HttpError> {
    chunks_from(data, 0)
}

/// `prefix` in front of the body of a successful decoding; errors pass through.
pub open spec fn after(prefix: Seq<u8>, r: Result<Seq<u8>, HttpError>) -> Result<
    Seq<u8>,
    HttpError,
> {
    match r {
        Ok(b) => Ok(prefix + b),
        Err(e) => Err(e),
    }
}

/// The size announced by the size line `line`.
fn read_chunk_size(line: &[u8]) -> (res: Result<usize, HttpError>)
    ensures
        match res {
            Ok(n) => chunk_size(chunk_size_field(line@)) == Ok::<nat, HttpError>(n as nat),
            Err(e) => chunk_size(chunk_size_field(line@)) == Err::<nat, HttpError>(e),
        },
{
    let semi: Vec<u8> = vec![59u8];
    assert(semi@ =~= seq![59u8]);
    let field = match find_bytes(line, semi.as_slice()) {
        Some(k) => slice_subrange(line, 0, k),
        None => line,
    };
    assert(field@ =~= chunk_size_field(line@));
    let text = match str_from_utf8(field) {
        Ok(t) => t,
        Err(_) => {
            return Err(HttpError::InvalidUtf8);
        },
    };
    proof {
        encode_utf8_decode_utf8(text@);
    }
    let chars = str_chars(text);
    let (a, b) = trim_bounds(&chars, 0, chars.len());
    assert(chars@.subrange(0, chars@.len() as int) =~= chars@);
    match parse_unsigned_chars(&chars, a, b, 16, usize::MAX as u64) {
        Some(n) => Ok(n as usize),
        None => Err(HttpError::InvalidChunkSize),
    }
}

/// Decodes a chunked body: the data of its chunks, in order.
pub fn decode_chunked(data: &[u8]) -> (res: Result<Vec<u8>, HttpError>)
    ensures
        match res {
            Ok(body) => spec_decode_chunked(data@) == Ok::<Seq<u8>, HttpError>(body@),
            Err(e) => spec_decode_chunked(data@) == Err::<Seq<u8>, HttpError>(e),
        },
{
    let mut body: Vec<u8> = Vec::new();
    let mut pos: usize = 0;
    loop
        invariant
            pos <= data@.len(),
            spec_decode_chunked(data@) == after(body@, chunks_from(data@, pos as int)),
        decreases data@.len() - pos,
    {
        let rest = slice_subrange(data, pos, data.len());
        let line_end = match find_crlf(rest) {
            Some(i) => i,
            None => {
                return Err(HttpError::ChunkSizeNotFound);
            },
        };
        proof {
            crate::search::lemma_find(rest@, crlf_bytes());
        }
        let line = slice_subrange(rest, 0, line_end);
        let size = match read_chunk_size(line) {
            Ok(n) => n,
            Err(e) => {
                return Err(e);
            },
        };
        pos = pos + line_end + 2;
        if size == 0 {
            assert(body@ + Seq::<u8>::empty() =~= body@);
            return Ok(body);
        }
        let chunk_end = match pos.checked_add(size) {
            Some(e) => e,
            None => {
                return Err(HttpError::ChunkSizeOverflow);
            },
        };
        if chunk_end > data.len() {
            return Err(HttpError::IncompleteChunk);
        }
        let ghost old_body = body@;
        let mut chunk = slice_to_vec(slice_subrange(data, pos, chunk_end));
        body.append(&mut chunk);
        if data.len() - chunk_end < 2 || data[chunk_end] != 13u8 || data[chunk_end + 1] != 10u8 {
            return Err(HttpError::MissingChunkCrlf);
        }
        proof {
            let tail = chunks_from(data@, chunk_end + 2);
            assert(old_body + (data@.subrange(pos as int, chunk_end as int) + tail->Ok_0) =~= body@
                + tail->Ok_0);
        }
        pos = chunk_end + 2;
    }
}

/// A hexadecimal digit, in either case.
pub open spec fn is_hex_char(c: char) -> bool {
    let u = c as u32;
    (0x30 <= u <= 0x39) || (0x41 <= u <= 0x46) || (0x61 <= u <= 0x66)
}

/// Chunk extensions after a size: nothing, or a `;` and text without a CR.
pub open spec fn is_extension(ext: Seq<u8>) -> bool {
    ext.len() == 0 || (ext[0] == 59u8 && forall|i: int| 0 <= i < ext.len() ==> ext[i] != 13u8)
}

/// `line` is made of the hexadecimal `digits` of `n` (in either case, with
/// any leading zeros) and the extensions `ext`.
pub open spec fn size_line_parts(line: Seq<u8>, n: nat, digits: Seq<char>, ext: Seq<u8>) -> bool {
    &&& digits.len() > 0
    &&& forall|i: int| 0 <= i < digits.len() ==> is_hex_char(#[trigger] digits[i])
    &&& digits_value(digits, 16) == Some(n)
    &&& is_extension(ext)
    &&& line == encode_utf8(digits) + ext
}

/// `line` announces a chunk of `n` bytes.
pub open spec fn is_size_line(line: Seq<u8>, n: nat) -> bool {
    exists|digits: Seq<char>, ext: Seq<u8>| #[trigger] size_line_parts(line, n, digits, ext)
}

/// A chunked body: for each chunk its size line, CR LF, its data and CR LF;
/// then the chunk of size zero, `0` CR LF, and whatever `trailer` follows.
pub open spec fn chunked_body(chunks: Seq<Seq<u8>>, lines: Seq<Seq<u8>>, trailer: Seq<u8>) -> Seq<
    u8,
>
    decreases chunks.len(),
{
    if chunks.len() == 0 || lines.len() == 0 {
        seq![48u8, 13u8, 10u8] + trailer
    } else {
        lines[0] + crlf_bytes() + chunks[0] + crlf_bytes() + chunked_body(
            chunks.drop_first(),
            lines.drop_first(),
            trailer,
        )
    }
}

proof fn lemma_ascii_char(c: char)
    requires
        (c as u32) <= 0x7f,
    ensures
        '\0' <= c <= '\u{7f}',
{
}

/// What a size line made of `digits` and `ext` reads as.
proof fn lemma_size_line(line: Seq<u8>, n: nat, digits: Seq<char>, ext: Seq<u8>)
    requires
        size_line_parts(line, n, digits, ext),
        n <= usize::MAX,
    ensures
        forall|i: int| 0 <= i < line.len() ==> #[trigger] line[i] != 13u8,
        chunk_size_field(line) == encode_utf8(digits),
        chunk_size(encode_utf8(digits)) == Ok::<nat, HttpError>(n),
{
    let hb = encode_utf8(digits);
    assert(is_ascii_chars(digits)) by {
        assert forall|i: int| 0 <= i < digits.len() implies '\0' <= #[trigger] digits[i] <= '\u{7f}' by {
            assert(is_hex_char(digits[i]));
            lemma_ascii_char(digits[i]);
        }
    }
    is_ascii_chars_encode_utf8(digits);
    let h = hb.len() as int;
    assert forall|i: int| 0 <= i < h implies #[trigger] hb[i] != 13u8 && hb[i] != 59u8 by {
        assert(is_hex_char(digits[i]));
        assert(digits[i] as u8 == hb[i]);
    }
    assert forall|i: int| 0 <= i < line.len() implies #[trigger] line[i] != 13u8 by {
        if i < h {
            assert(line[i] == hb[i]);
        } else {
            assert(line[i] == ext[i - h]);
        }
    }
    if ext.len() == 0 {
        assert(line =~= hb);
        assert forall|j: int| !#[trigger] match_at(line, seq![59u8], j) by {
            lemma_match_single(line, 59u8, j);
        }
        lemma_find(line, seq![59u8]);
    } else {
        assert forall|j: int| 0 <= j < h implies !#[trigger] match_at(line, seq![59u8], j) by {
            lemma_match_single(line, 59u8, j);
            assert(line[j] == hb[j]);
        }
        lemma_match_single(line, 59u8, h);
        assert(line[h] == ext[0]);
        lemma_find_is(line, seq![59u8], h);
        assert(line.take(h) =~= hb);
    }
    encode_utf8_valid_utf8(digits);
    encode_utf8_decode_utf8(digits);
    assert(is_hex_char(digits[0]));
    assert(is_hex_char(digits.last()));
    assert(!is_whitespace(digits[0]));
    assert(!is_whitespace(digits.last()));
    assert(trim_start(digits) == digits);
    assert(trim_end(digits) == digits);
}

/// CR LF is found where it first stands after a prefix that holds no CR.
proof fn lemma_find_crlf_after(prefix: Seq<u8>, tail: Seq<u8>)
    requires
        forall|i: int| 0 <= i < prefix.len() ==> prefix[i] != 13u8,
        tail.len() >= 2,
        tail[0] == 13u8,
        tail[1] == 10u8,
    ensures
        find(prefix + tail, crlf_bytes()) == Some(prefix.len() as int),
        (prefix + tail).take(prefix.len() as int) == prefix,
{
    let s = prefix + tail;
    let p = prefix.len() as int;
    assert forall|j: int| 0 <= j < p implies !#[trigger] match_at(s, crlf_bytes(), j) by {
        if match_at(s, crlf_bytes(), j) {
            assert(s[j + 0] == crlf_bytes()[0]);
            assert(s[j] == prefix[j]);
        }
    }
    assert forall|k: int| 0 <= k < 2 implies s[p + k] == crlf_bytes()[k] by {
        assert(s[p + k] == tail[k]);
    }
    assert(match_at(s, crlf_bytes(), p));
    lemma_find_is(s, crlf_bytes(), p);
    assert(s.take(p) =~= prefix);
}

/// One chunk of data, then more: decoding takes the chunk's data and goes on
/// after it.
proof fn lemma_chunk_step(data: Seq<u8>, pos: int, line: Seq<u8>, c: Seq<u8>, later: Seq<u8>)
    requires
        0 <= pos <= data.len(),
        data.len() <= usize::MAX,
        data.skip(pos) == line + crlf_bytes() + c + crlf_bytes() + later,
        is_size_line(line, c.len()),
        c.len() > 0,
    ensures
        pos + line.len() + c.len() + 4 <= data.len(),
        data.skip(pos + line.len() + c.len() + 4) == later,
        chunks_from(data, pos) == after(c, chunks_from(data, pos + line.len() + c.len() + 4)),
{
    let rest = data.skip(pos);
    let n = c.len();
    let (digits, ext) = choose|digits: Seq<char>, ext: Seq<u8>|
        #[trigger] size_line_parts(line, n, digits, ext);
    assert(rest.len() == line.len() + n + 4 + later.len());
    lemma_size_line(line, n, digits, ext);
    let h = line.len() as int;
    let tail = crlf_bytes() + c + crlf_bytes() + later;
    assert(rest =~= line + tail);
    lemma_find_crlf_after(line, tail);
    let start = pos + h + 2;
    let end = start + n;
    assert(rest[h + 2 + n] == 13u8);
    assert(rest[h + 3 + n] == 10u8);
    assert(data[end] == rest[h + 2 + n]);
    assert(data[end + 1] == rest[h + 3 + n]);
    assert(data.subrange(start, end) =~= c) by {
        assert forall|k: int| 0 <= k < n implies data.subrange(start, end)[k] == c[k] by {
            assert(data[start + k] == rest[h + 2 + k]);
        }
    }
    assert(data.skip(end + 2) =~= later) by {
        assert forall|k: int| 0 <= k < later.len() implies data.skip(end + 2)[k] == later[k] by {
            assert(data[end + 2 + k] == rest[h + 4 + n + k]);
        }
    }
}

proof fn lemma_chunks_from_body(
    data: Seq<u8>,
    pos: int,
    chunks: Seq<Seq<u8>>,
    lines: Seq<Seq<u8>>,
    trailer: Seq<u8>,
)
    requires
        0 <= pos <= data.len(),
        data.len() <= usize::MAX,
        data.skip(pos) == chunked_body(chunks, lines, trailer),
        lines.len() == chunks.len(),
        forall|i: int|
            0 <= i < chunks.len() ==> (#[trigger] chunks[i]).len() > 0 && is_size_line(
                lines[i],
                chunks[i].len(),
            ),
    ensures
        chunks_from(data, pos) == Ok::<Seq<u8>, HttpError>(chunks.flatten()),
    decreases chunks.len(),
{
    let rest = data.skip(pos);
    if chunks.len() == 0 {
        let zero = seq!['0'];
        assert(digits_value(zero.drop_last(), 16) == Some(0nat));
        assert(digits_value(zero, 16) == Some(0nat));
        assert(is_hex_char(zero[0]));
        lemma_ascii_char(zero[0]);
        is_ascii_chars_encode_utf8(zero);
        assert(encode_utf8(zero) =~= seq![48u8]) by {
            assert(encode_utf8(zero)[0] == zero[0] as u8);
        }
        assert(size_line_parts(seq![48u8], 0, zero, Seq::<u8>::empty()));
        lemma_size_line(seq![48u8], 0, zero, Seq::<u8>::empty());
        assert(rest =~= seq![48u8] + (seq![13u8, 10u8] + trailer));
        lemma_find_crlf_after(seq![48u8], seq![13u8, 10u8] + trailer);
    } else {
        let c = chunks[0];
        let later = chunked_body(chunks.drop_first(), lines.drop_first(), trailer);
        assert(is_size_line(lines[0], c.len()));
        lemma_chunk_step(data, pos, lines[0], c, later);
        assert forall|i: int| 0 <= i < chunks.len() - 1 implies (#[trigger] chunks.drop_first()[i]).len()
            > 0 && is_size_line(lines.drop_first()[i], chunks.drop_first()[i].len()) by {
            assert(chunks.drop_first()[i] == chunks[i + 1]);
            assert(lines.drop_first()[i] == lines[i + 1]);
        }
        lemma_chunks_from_body(
            data,
            pos + lines[0].len() + c.len() + 4,
            chunks.drop_first(),
            lines.drop_first(),
            trailer,
        );
    }
}

/// Decoding undoes chunked encoding: a body sent as chunks of data comes back
/// as their concatenation, whatever the case of the hexadecimal sizes, their
/// leading zeros and their extensions, and whatever follows the last chunk.
/// (A chunk of size zero ends the body, so every chunk must hold data; and
/// the body must fit in memory.)
pub proof fn law_decode_chunked_body(chunks: Seq<Seq<u8>>, lines: Seq<Seq<u8>>, trailer: Seq<u8>)
    requires
        lines.len() == chunks.len(),
        forall|i: int|
            0 <= i < chunks.len() ==> (#[trigger] chunks[i]).len() > 0 && is_size_line(
                lines[i],
                chunks[i].len(),
            ),
        chunked_body(chunks, lines, trailer).len() <= usize::MAX,
    ensures
        spec_decode_chunked(chunked_body(chunks, lines, trailer)) == Ok::<Seq<u8>, HttpError>(
            chunks.flatten(),
        ),
{
    let data = chunked_body(chunks, lines, trailer);
    assert(data.skip(0) =~= data);
    lemma_chunks_from_body(data, 0, chunks, lines, trailer);
}

} // verus!
