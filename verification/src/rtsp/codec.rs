//! RTSP/1.0 wire encode/decode.

use vstd::prelude::*;
use vstd::utf8::*;

use super::headers::{HeaderView, Headers};
use super::{Request, Response, ResponseView};
use crate::error::Error;
use crate::octets::{append_all, byte_index, copy_range, find_byte, lemma_byte_index};
use crate::text::{
    all_digits, bytes_eq_ignore_ascii_case, check_all_digits, decimal_digits, decimal_value,
    eq_ignore_ascii_case, is_utf8, lemma_split_at_ascii, parse_decimal, push_decimal, str_trim,
    string_from_utf8_lossy, text_concat, trim,
};

verus! {

/// `RTSP/1.0`, the version on every line.
pub open spec fn version_bytes() -> Seq<u8> {
    seq![82u8, 84, 83, 80, 47, 49, 46, 48]
}

/// `Content-Length`.
pub open spec fn content_length_name() -> Seq<u8> {
    seq![67u8, 111, 110, 116, 101, 110, 116, 45, 76, 101, 110, 103, 116, 104]
}

/// `\r\n`.
pub open spec fn crlf() -> Seq<u8> {
    seq![13u8, 10]
}

/// `\r\n\r\n`, the end of a message head.
pub open spec fn head_end_marker() -> Seq<u8> {
    seq![13u8, 10, 13, 10]
}

fn version_vec() -> (v: Vec<u8>)
    ensures
        v@ == version_bytes(),
{
    let v = vec![82u8, 84, 83, 80, 47, 49, 46, 48];
    assert(v@ =~= version_bytes());
    v
}

fn content_length_vec() -> (v: Vec<u8>)
    ensures
        v@ == content_length_name(),
{
    let v = vec![67u8, 111, 110, 116, 101, 110, 116, 45, 76, 101, 110, 103, 116, 104];
    assert(v@ =~= content_length_name());
    v
}

/// The header lines a request carries: every header in order except those
/// named `Content-Length` (in any ASCII case), each as `name: value\r\n`.
pub open spec fn header_block(hs: Seq<HeaderView>) -> Seq<u8>
    decreases hs.len(),
{
    if hs.len() == 0 {
        seq![]
    } else {
        let h = hs.last();
        header_block(hs.drop_last()) + if eq_ignore_ascii_case(
            encode_utf8(h.0),
            content_length_name(),
        ) {
            Seq::<u8>::empty()
        } else {
            encode_utf8(h.0) + seq![58u8, 32] + encode_utf8(h.1) + crlf()
        }
    }
}

/// The wire form of a request: the request line, the caller's headers but
/// for any `Content-Length`, one `Content-Length` with the body's length, a
/// blank line and the body.
pub open spec fn request_bytes(
    method: Seq<char>,
    uri: Seq<char>,
    hs: Seq<HeaderView>,
    body: Seq<u8>,
) -> Seq<u8> {
    encode_utf8(method) + seq![32u8] + encode_utf8(uri) + seq![32u8] + version_bytes() + crlf()
        + header_block(hs) + content_length_name() + seq![58u8, 32] + decimal_digits(body.len())
        + crlf() + crlf() + body
}

/// Encode a request. `Content-Length` is always written from the actual body
/// length, so callers must not set it themselves.
pub(crate) fn encode_request(req: &Request) -> (out: Vec<u8>)
    ensures
        out@ == request_bytes(req.method@, req.uri@, req.headers@, req.body@),
{
    let mut out: Vec<u8> = Vec::new();
    append_all(&mut out, req.method.as_str().as_bytes());
    out.push(32);
    append_all(&mut out, req.uri.as_str().as_bytes());
    out.push(32);
    let version = version_vec();
    append_all(&mut out, version.as_slice());
    out.push(13);
    out.push(10);
    let ghost start = out@;
    let cl = content_length_vec();
    let hs = req.headers.iter();
    let ghost hv = req.headers@;
    assert(hv.take(0) =~= Seq::<HeaderView>::empty());
    let mut i: usize = 0;
    while i < hs.len()
        invariant
            0 <= i <= hs@.len(),
            hs@.map_values(|e: (String, String)| (e.0@, e.1@)) == hv,
            cl@ == content_length_name(),
            out@ == start + header_block(hv.take(i as int)),
        decreases hs@.len() - i,
    {
        assert(hv[i as int] == (hs@[i as int].0@, hs@[i as int].1@));
        assert(hv.take(i + 1).drop_last() =~= hv.take(i as int));
        let ghost before = out@;
        let name = hs[i].0.as_str();
        let value = hs[i].1.as_str();
        if !bytes_eq_ignore_ascii_case(name.as_bytes(), cl.as_slice()) {
            append_all(&mut out, name.as_bytes());
            out.push(58);
            out.push(32);
            append_all(&mut out, value.as_bytes());
            out.push(13);
            out.push(10);
            assert(out@ =~= before + (encode_utf8(name@) + seq![58u8, 32] + encode_utf8(value@)
                + crlf()));
        } else {
            assert(out@ =~= before + Seq::<u8>::empty());
        }
        i += 1;
    }
    assert(hv.take(hs@.len() as int) =~= hv);
    append_all(&mut out, cl.as_slice());
    out.push(58);
    out.push(32);
    push_decimal(&mut out, req.body.len() as u64);
    out.push(13);
    out.push(10);
    out.push(13);
    out.push(10);
    append_all(&mut out, req.body.as_slice());
    assert(out@ =~= request_bytes(req.method@, req.uri@, req.headers@, req.body@));
    out
}

/// Why a response could not be parsed.
pub enum RtspFault {
    EmptyResponse,
    NonUtf8Status,
    BadVersion(Seq<u8>),
    MissingStatusCode,
    BadStatusCode(Seq<u8>),
    NonUtf8Header,
    MalformedHeader,
    InvalidContentLength,
    ContentLengthTooLarge,
    ConflictingContentLength,
    ContentLengthOverflow,
}

/// The message of the `Error::Rtsp` reported for each fault.
pub open spec fn fault_message(f: RtspFault) -> Seq<char> {
    match f {
        RtspFault::EmptyResponse => "empty response"@,
        RtspFault::NonUtf8Status => "non-utf8 status"@,
        RtspFault::BadVersion(v) => "bad version: "@ + decode_utf8(v),
        RtspFault::MissingStatusCode => "missing status code"@,
        RtspFault::BadStatusCode(c) => "bad status code: "@ + decode_utf8(c),
        RtspFault::NonUtf8Header => "non-utf8 header"@,
        RtspFault::MalformedHeader => "malformed header"@,
        RtspFault::InvalidContentLength => "invalid content-length"@,
        RtspFault::ContentLengthTooLarge => "content-length too large"@,
        RtspFault::ConflictingContentLength => "conflicting content-length"@,
        RtspFault::ContentLengthOverflow => "content-length overflow"@,
    }
}

/// `n` occurs in `h` at offset `i`.
pub open spec fn occurs_at(h: Seq<u8>, n: Seq<u8>, i: int) -> bool {
    0 <= i && i + n.len() <= h.len() && h.subrange(i, i + n.len()) == n
}

/// The first offset at or after `i` where `n` occurs in `h`.
pub open spec fn find_from(h: Seq<u8>, n: Seq<u8>, i: int) -> Option<int>
    decreases h.len() + 1 - i,
{
    if i < 0 || i + n.len() > h.len() {
        None
    } else if occurs_at(h, n, i) {
        Some(i)
    } else {
        find_from(h, n, i + 1)
    }
}

proof fn lemma_find_from(h: Seq<u8>, n: Seq<u8>, i: int)
    ensures
        find_from(h, n, i) matches Some(k) ==> occurs_at(h, n, k) && i <= k,
    decreases h.len() + 1 - i,
{
    if !(i < 0 || i + n.len() > h.len()) && !occurs_at(h, n, i) {
        lemma_find_from(h, n, i + 1);
    }
}

fn matches_at(h: &[u8], n: &[u8], i: usize) -> (r: bool)
    requires
        i + n@.len() <= h@.len(),
    ensures
        r == occurs_at(h@, n@, i as int),
{
    let hl = h.len();
    let mut k: usize = 0;
    while k < n.len()
        invariant
            hl == h@.len(),
            i + n@.len() <= h@.len(),
            0 <= k <= n@.len(),
            forall|j: int| 0 <= j < k ==> h@[i + j] == n@[j],
        decreases n@.len() - k,
    {
        if h[i + k] != n[k] {
            assert(h@.subrange(i as int, i + n@.len())[k as int] != n@[k as int]);
            return false;
        }
        k += 1;
    }
    assert(h@.subrange(i as int, i + n@.len()) =~= n@);
    true
}

/// The first offset of `needle` in `haystack`.
fn find(haystack: &[u8], needle: &[u8]) -> (r: Option<usize>)
    requires
        needle@.len() > 0,
    ensures
        match r {
            Some(i) => find_from(haystack@, needle@, 0) == Some(i as int),
            None => find_from(haystack@, needle@, 0) is None,
        },
{
    if needle.len() > haystack.len() {
        return None;
    }
    let hl = haystack.len();
    let last = hl - needle.len();
    let mut i: usize = 0;
    while i <= last
        invariant
            hl == haystack@.len(),
            last + needle@.len() == haystack@.len(),
            needle@.len() > 0,
            0 <= i <= last + 1,
            find_from(haystack@, needle@, 0) == find_from(haystack@, needle@, i as int),
        decreases last + 1 - i,
    {
        if matches_at(haystack, needle, i) {
            return Some(i);
        }
        i += 1;
    }
    None
}

/// A line without one trailing carriage return.
pub open spec fn strip_cr(l: Seq<u8>) -> Seq<u8> {
    if l.len() > 0 && l.last() == 13 {
        l.drop_last()
    } else {
        l
    }
}

/// `rest` with `l` in front of it, unless `l` is empty.
pub open spec fn keep_line(l: Seq<u8>, rest: Seq<Seq<u8>>) -> Seq<Seq<u8>> {
    if l.len() == 0 {
        rest
    } else {
        seq![l] + rest
    }
}

/// The lines of `s` from the line that starts at `start`, the scan being at
/// `i`: split at each `\n`, one trailing `\r` stripped, empty lines dropped.
pub open spec fn lines_from(s: Seq<u8>, start: int, i: int) -> Seq<Seq<u8>>
    decreases s.len() - i,
{
    if i >= s.len() {
        keep_line(strip_cr(s.subrange(start, s.len() as int)), seq![])
    } else if s[i] == 10 {
        keep_line(strip_cr(s.subrange(start, i)), lines_from(s, i + 1, i + 1))
    } else {
        lines_from(s, start, i + 1)
    }
}

/// The non-empty lines of a message head.
pub open spec fn crlf_lines(s: Seq<u8>) -> Seq<Seq<u8>> {
    lines_from(s, 0, 0)
}

/// The byte ranges `(start, end)` of `s` as byte strings.
pub open spec fn ranges_of(s: Seq<u8>, r: Seq<(usize, usize)>) -> Seq<Seq<u8>> {
    r.map_values(|p: (usize, usize)| s.subrange(p.0 as int, p.1 as int))
}

pub open spec fn ranges_in(s: Seq<u8>, r: Seq<(usize, usize)>) -> bool {
    forall|k: int| 0 <= k < r.len() ==> #[trigger] r[k].0 <= r[k].1 <= s.len()
}

fn push_line(out: &mut Vec<(usize, usize)>, s: &[u8], start: usize, end: usize)
    requires
        start <= end <= s@.len(),
        ranges_in(s@, old(out)@),
    ensures
        ranges_in(s@, final(out)@),
        ranges_of(s@, final(out)@) == ranges_of(s@, old(out)@) + keep_line(
            strip_cr(s@.subrange(start as int, end as int)),
            seq![],
        ),
{
    let ghost l = s@.subrange(start as int, end as int);
    let mut e: usize = end;
    if e > start && s[e - 1] == 13 {
        e = e - 1;
        assert(s@.subrange(start as int, e as int) =~= l.drop_last());
    }
    assert(s@.subrange(start as int, e as int) == strip_cr(l));
    if e > start {
        out.push((start, e));
        assert(ranges_of(s@, out@) =~= ranges_of(s@, old(out)@) + seq![strip_cr(l)]);
        assert(seq![strip_cr(l)] =~= keep_line(strip_cr(l), seq![]));
    } else {
        assert(ranges_of(s@, out@) =~= ranges_of(s@, old(out)@) + keep_line(
            strip_cr(l),
            seq![],
        ));
    }
}

/// The lines of a message head, as byte ranges.
fn split_crlf(s: &[u8]) -> (r: Vec<(usize, usize)>)
    ensures
        ranges_in(s@, r@),
        ranges_of(s@, r@) == crlf_lines(s@),
{
    let mut out: Vec<(usize, usize)> = Vec::new();
    let mut start: usize = 0;
    let mut i: usize = 0;
    assert(ranges_of(s@, out@) =~= Seq::<Seq<u8>>::empty());
    while i < s.len()
        invariant
            0 <= start <= i <= s@.len(),
            ranges_in(s@, out@),
            ranges_of(s@, out@) + lines_from(s@, start as int, i as int) == crlf_lines(s@),
        decreases s@.len() - i,
    {
        if s[i] == 10 {
            let ghost before = ranges_of(s@, out@);
            let ghost l = strip_cr(s@.subrange(start as int, i as int));
            let ghost rest = lines_from(s@, i + 1, i + 1);
            push_line(&mut out, s, start, i);
            assert(before + keep_line(l, rest) =~= before + keep_line(l, seq![]) + rest);
            start = i + 1;
        }
        i += 1;
    }
    let ghost before = ranges_of(s@, out@);
    push_line(&mut out, s, start, s.len());
    assert(ranges_of(s@, out@) =~= crlf_lines(s@));
    out
}

fn bytes_equal(a: &[u8], b: &[u8]) -> (r: bool)
    ensures
        r == (a@ == b@),
{
    if a.len() != b.len() {
        return false;
    }
    let mut i: usize = 0;
    while i < a.len()
        invariant
            a@.len() == b@.len(),
            0 <= i <= a@.len(),
            forall|j: int| 0 <= j < i ==> a@[j] == b@[j],
        decreases a@.len() - i,
    {
        if a[i] != b[i] {
            return false;
        }
        i += 1;
    }
    assert(a@ =~= b@);
    true
}

/// The status code and reason of a status line.
pub open spec fn status_line(line: Seq<u8>) -> Result<(u16, Seq<char>), RtspFault> {
    if !valid_utf8(line) {
        Err(RtspFault::NonUtf8Status)
    } else {
        let version = match byte_index(line, 32, 0) {
            Some(i) => line.take(i),
            None => line,
        };
        if version != version_bytes() {
            Err(RtspFault::BadVersion(version))
        } else {
            match byte_index(line, 32, 0) {
                None => Err(RtspFault::MissingStatusCode),
                Some(i) => {
                    let code_end = match byte_index(line, 32, i + 1) {
                        Some(j) => j,
                        None => line.len() as int,
                    };
                    let code = line.subrange(i + 1, code_end);
                    if code.len() != 3 || !all_digits(code) {
                        Err(RtspFault::BadStatusCode(code))
                    } else {
                        Ok(
                            (
                                decimal_value(code) as u16,
                                match byte_index(line, 32, i + 1) {
                                    Some(j) => decode_utf8(line.skip(j + 1)),
                                    None => Seq::<char>::empty(),
                                },
                            ),
                        )
                    }
                },
            }
        }
    }
}

fn parse_status_line(line: &[u8]) -> (r: Result<(u16, String), Error>)
    ensures
        match (r, status_line(line@)) {
            (Ok((code, reason)), Ok((c, t))) => code == c && reason@ == t,
            (Err(e), Err(f)) => e matches Error::Rtsp(m) && m@ == fault_message(f),
            _ => false,
        },
{
    if !is_utf8(line) {
        return Err(Error::Rtsp(String::from_str("non-utf8 status")));
    }
    let first = find_byte(line, 32, 0);
    let version_end = match first {
        Some(i) => i,
        None => line.len(),
    };
    proof {
        if first is Some {
            lemma_split_at_ascii(line@, version_end as int);
        } else {
            assert(line@.take(version_end as int) =~= line@);
        }
    }
    let version = vstd::slice::slice_subrange(line, 0, version_end);
    assert(version@ =~= line@.take(version_end as int));
    let expected = version_vec();
    if !bytes_equal(version, expected.as_slice()) {
        let v = string_from_utf8_lossy(version);
        return Err(Error::Rtsp(text_concat("bad version: ", v.as_str())));
    }
    let i = match first {
        Some(i) => i,
        None => {
            return Err(Error::Rtsp(String::from_str("missing status code")));
        },
    };
    let second = find_byte(line, 32, i + 1);
    let code_end = match second {
        Some(j) => j,
        None => line.len(),
    };
    let code = vstd::slice::slice_subrange(line, i + 1, code_end);
    proof {
        let tail = line@.skip(i + 1);
        if second is Some {
            lemma_split_at_ascii(tail, code_end - (i + 1));
            assert(tail.take(code_end - (i + 1)) =~= code@);
            assert(tail.skip(code_end - (i + 1) + 1) =~= line@.skip(code_end + 1));
        } else {
            assert(tail =~= code@);
        }
    }
    if code.len() != 3 || !check_all_digits(code) {
        let c = string_from_utf8_lossy(code);
        return Err(Error::Rtsp(text_concat("bad status code: ", c.as_str())));
    }
    let status = ((code[0] - 48) as u16) * 100 + ((code[1] - 48) as u16) * 10 + ((code[2]
        - 48) as u16);
    proof {
        let c = code@;
        let c2 = c.drop_last();
        let c1 = c2.drop_last();
        let c0 = c1.drop_last();
        assert(c0 =~= Seq::<u8>::empty());
        assert(c1.last() == c[0]);
        assert(c2.last() == c[1]);
        assert(decimal_value(c0) == 0);
        assert(decimal_value(c1) == decimal_value(c0) * 10 + (c1.last() - 48) as nat);
        assert(decimal_value(c2) == decimal_value(c1) * 10 + (c2.last() - 48) as nat);
        assert(decimal_value(c) == decimal_value(c2) * 10 + (c.last() - 48) as nat);
        assert(decimal_value(c) == status as nat);
    }
    let reason = match second {
        Some(j) => {
            let rest = vstd::slice::slice_subrange(line, j + 1, line.len());
            assert(rest@ =~= line@.skip(j + 1));
            string_from_utf8_lossy(rest)
        },
        None => String::new(),
    };
    Ok((status, reason))
}

/// The name and value of a header line, each trimmed of whitespace.
pub open spec fn header_line(line: Seq<u8>) -> Result<HeaderView, RtspFault> {
    if !valid_utf8(line) {
        Err(RtspFault::NonUtf8Header)
    } else {
        match byte_index(line, 58, 0) {
            None => Err(RtspFault::MalformedHeader),
            Some(c) => Ok((trim(decode_utf8(line.take(c))), trim(decode_utf8(line.skip(c + 1))))),
        }
    }
}

/// A header line splits at its first colon: it parses exactly when it is
/// UTF-8 and holds a colon, and then the name is the trimmed text before the
/// first colon and the value the trimmed text after it (colons in the value
/// stay there).
pub proof fn lemma_header_line_splits_at_first_colon(line: Seq<u8>)
    ensures
        (header_line(line) is Ok) == (valid_utf8(line) && exists|c: int|
            0 <= c < line.len() && line[c] == 58),
        header_line(line) matches Ok((name, value)) ==> exists|c: int|
            0 <= c < line.len() && line[c] == 58 && (forall|j: int| 0 <= j < c ==> line[j] != 58)
                && name == trim(decode_utf8(line.take(c))) && value == trim(
                decode_utf8(line.skip(c + 1)),
            ),
{
    lemma_byte_index(line, 58, 0);
    match byte_index(line, 58, 0) {
        Some(c) => {
            assert(0 <= c < line.len() && line[c] == 58);
        },
        None => {},
    }
}

fn parse_header_line(line: &[u8]) -> (r: Result<(String, String), Error>)
    ensures
        match (r, header_line(line@)) {
            (Ok((n, v)), Ok(h)) => (n@, v@) == h,
            (Err(e), Err(f)) => e matches Error::Rtsp(m) && m@ == fault_message(f),
            _ => false,
        },
{
    let line_len = line.len();
    if !is_utf8(line) {
        return Err(Error::Rtsp(String::from_str("non-utf8 header")));
    }
    let c = match find_byte(line, 58, 0) {
        Some(c) => c,
        None => {
            return Err(Error::Rtsp(String::from_str("malformed header")));
        },
    };
    proof {
        lemma_split_at_ascii(line@, c as int);
    }
    let name_bytes = vstd::slice::slice_subrange(line, 0, c);
    let value_bytes = vstd::slice::slice_subrange(line, c + 1, line_len);
    assert(name_bytes@ =~= line@.take(c as int));
    assert(value_bytes@ =~= line@.skip(c + 1));
    let name_text = string_from_utf8_lossy(name_bytes);
    let value_text = string_from_utf8_lossy(value_bytes);
    let name = String::from_str(str_trim(name_text.as_str()));
    let value = String::from_str(str_trim(value_text.as_str()));
    Ok((name, value))
}

/// The headers of the header lines, or the fault of the first bad one.
pub open spec fn header_lines(lines: Seq<Seq<u8>>) -> Result<Seq<HeaderView>, RtspFault>
    decreases lines.len(),
{
    if lines.len() == 0 {
        Ok(seq![])
    } else {
        match header_line(lines[0]) {
            Err(f) => Err(f),
            Ok(h) => match header_lines(lines.drop_first()) {
                Err(f) => Err(f),
                Ok(rest) => Ok(seq![h] + rest),
            },
        }
    }
}

/// Whether `n` is the value a `Content-Length` already seen allows.
pub open spec fn agrees(found: Option<nat>, n: nat) -> bool {
    match found {
        Some(prev) => prev == n,
        None => true,
    }
}

/// The body length the headers declare, scanning from `hs[0]` with the
/// `Content-Length` value already seen, if any.
pub open spec fn content_length_scan(hs: Seq<HeaderView>, found: Option<nat>) -> Result<
    nat,
    RtspFault,
>
    decreases hs.len(),
{
    if hs.len() == 0 {
        Ok(
            match found {
                Some(n) => n,
                None => 0,
            },
        )
    } else if !eq_ignore_ascii_case(encode_utf8(hs[0].0), content_length_name()) {
        content_length_scan(hs.drop_first(), found)
    } else {
        let t = encode_utf8(trim(hs[0].1));
        if t.len() == 0 || !all_digits(t) {
            Err(RtspFault::InvalidContentLength)
        } else if decimal_value(t) > usize::MAX {
            Err(RtspFault::ContentLengthTooLarge)
        } else if !agrees(found, decimal_value(t)) {
            Err(RtspFault::ConflictingContentLength)
        } else {
            content_length_scan(hs.drop_first(), Some(decimal_value(t)))
        }
    }
}

/// The body length the headers declare: absent means zero, but each
/// `Content-Length` present must be digits only and all must agree.
pub open spec fn content_length_of(hs: Seq<HeaderView>) -> Result<nat, RtspFault> {
    content_length_scan(hs, None)
}

/// A header named `Content-Length`, in any ASCII case.
pub open spec fn is_length_header(h: HeaderView) -> bool {
    eq_ignore_ascii_case(encode_utf8(h.0), content_length_name())
}

/// The trimmed value of a header, as bytes.
pub open spec fn length_text(h: HeaderView) -> Seq<u8> {
    encode_utf8(trim(h.1))
}

/// A usable length: non-empty, digits only, and within `usize`.
pub open spec fn length_ok(t: Seq<u8>) -> bool {
    t.len() > 0 && all_digits(t) && decimal_value(t) <= usize::MAX
}

/// Every `Content-Length` in `hs` is usable, all agree, and all agree with
/// the value already seen, if any.
pub open spec fn lengths_agree(hs: Seq<HeaderView>, found: Option<nat>) -> bool {
    &&& forall|i: int| 0 <= i < hs.len() && is_length_header(#[trigger] hs[i]) ==> length_ok(
        length_text(hs[i]),
    )
    &&& forall|i: int, j: int|
        0 <= i < hs.len() && 0 <= j < hs.len() && is_length_header(#[trigger] hs[i])
            && is_length_header(#[trigger] hs[j]) ==> decimal_value(length_text(hs[i]))
            == decimal_value(length_text(hs[j]))
    &&& forall|i: int|
        0 <= i < hs.len() && is_length_header(#[trigger] hs[i]) && found is Some ==> decimal_value(
            length_text(hs[i]),
        ) == found->Some_0
}

proof fn lemma_scan_rule(hs: Seq<HeaderView>, found: Option<nat>)
    ensures
        (content_length_scan(hs, found) is Ok) == lengths_agree(hs, found),
        content_length_scan(hs, found) matches Ok(n) ==> {
            &&& forall|i: int| 0 <= i < hs.len() && is_length_header(#[trigger] hs[i])
                ==> decimal_value(length_text(hs[i])) == n
            &&& (forall|i: int| 0 <= i < hs.len() ==> !is_length_header(#[trigger] hs[i])) ==> n
                == (match found {
                Some(f) => f,
                None => 0,
            })
        },
    decreases hs.len(),
{
    if hs.len() > 0 {
        let h0 = hs[0];
        let rest = hs.drop_first();
        assert forall|i: int| 0 <= i < rest.len() implies #[trigger] rest[i] == hs[i + 1] by {}
        if !is_length_header(h0) {
            lemma_scan_rule(rest, found);
            if lengths_agree(rest, found) {
                assert forall|i: int, j: int|
                    0 <= i < hs.len() && 0 <= j < hs.len() && is_length_header(#[trigger] hs[i])
                        && is_length_header(#[trigger] hs[j]) implies decimal_value(
                    length_text(hs[i]),
                ) == decimal_value(length_text(hs[j])) by {
                    assert(rest[i - 1] == hs[i]);
                    assert(rest[j - 1] == hs[j]);
                }
                assert forall|i: int| 0 <= i < hs.len() && is_length_header(#[trigger] hs[i])
                    implies length_ok(length_text(hs[i])) by {
                    assert(rest[i - 1] == hs[i]);
                }
                assert forall|i: int|
                    0 <= i < hs.len() && is_length_header(#[trigger] hs[i]) && found is Some
                    implies decimal_value(length_text(hs[i])) == found->Some_0 by {
                    assert(rest[i - 1] == hs[i]);
                }
            } else if lengths_agree(hs, found) {
                assert forall|i: int, j: int|
                    0 <= i < rest.len() && 0 <= j < rest.len() && is_length_header(#[trigger] rest[i])
                        && is_length_header(#[trigger] rest[j]) implies decimal_value(
                    length_text(rest[i]),
                ) == decimal_value(length_text(rest[j])) by {
                    assert(hs[i + 1] == rest[i]);
                    assert(hs[j + 1] == rest[j]);
                }
                assert forall|i: int| 0 <= i < rest.len() && is_length_header(#[trigger] rest[i])
                    implies length_ok(length_text(rest[i])) by {
                    assert(hs[i + 1] == rest[i]);
                }
                assert forall|i: int|
                    0 <= i < rest.len() && is_length_header(#[trigger] rest[i]) && found is Some
                    implies decimal_value(length_text(rest[i])) == found->Some_0 by {
                    assert(hs[i + 1] == rest[i]);
                }
            }
            match content_length_scan(hs, found) {
                Ok(n) => {
                    assert forall|i: int| 0 <= i < hs.len() && is_length_header(#[trigger] hs[i])
                        implies decimal_value(length_text(hs[i])) == n by {
                        assert(rest[i - 1] == hs[i]);
                    }
                    if forall|i: int| 0 <= i < hs.len() ==> !is_length_header(#[trigger] hs[i]) {
                        assert forall|i: int| 0 <= i < rest.len() implies !is_length_header(
                            #[trigger] rest[i],
                        ) by {
                            assert(hs[i + 1] == rest[i]);
                        }
                    }
                },
                Err(_) => {},
            }
        } else {
            let t = length_text(h0);
            if !length_ok(t) {
                assert(!lengths_agree(hs, found)) by {
                    assert(is_length_header(hs[0]));
                }
            } else if !agrees(found, decimal_value(t)) {
                assert(!lengths_agree(hs, found)) by {
                    assert(is_length_header(hs[0]));
                }
            } else {
                let d = decimal_value(t);
                lemma_scan_rule(rest, Some(d));
                if lengths_agree(rest, Some(d)) {
                    assert forall|i: int| 0 <= i < hs.len() && is_length_header(#[trigger] hs[i])
                        implies decimal_value(length_text(hs[i])) == d by {
                        if i > 0 {
                            assert(rest[i - 1] == hs[i]);
                        }
                    }
                    assert forall|i: int| 0 <= i < hs.len() && is_length_header(#[trigger] hs[i])
                        implies length_ok(length_text(hs[i])) by {
                        if i > 0 {
                            assert(rest[i - 1] == hs[i]);
                        }
                    }
                    assert(lengths_agree(hs, found));
                } else if lengths_agree(hs, found) {
                    assert(is_length_header(hs[0]));
                    assert forall|i: int| 0 <= i < rest.len() && is_length_header(#[trigger] rest[i])
                        implies decimal_value(length_text(rest[i])) == d by {
                        assert(hs[i + 1] == rest[i]);
                    }
                    assert forall|i: int| 0 <= i < rest.len() && is_length_header(#[trigger] rest[i])
                        implies length_ok(length_text(rest[i])) by {
                        assert(hs[i + 1] == rest[i]);
                    }
                    assert(lengths_agree(rest, Some(d)));
                }
                match content_length_scan(hs, found) {
                    Ok(n) => {
                        if exists|i: int| 0 <= i < rest.len() && is_length_header(#[trigger] rest[i]) {
                            let i = choose|i: int| 0 <= i < rest.len() && is_length_header(
                                #[trigger] rest[i],
                            );
                            assert(hs[i + 1] == rest[i]);
                        }
                        assert forall|i: int| 0 <= i < hs.len() && is_length_header(#[trigger] hs[i])
                            implies decimal_value(length_text(hs[i])) == n by {
                            if i > 0 {
                                assert(rest[i - 1] == hs[i]);
                            }
                        }
                    },
                    Err(_) => {},
                }
            }
        }
    }
}

/// The body length the headers declare: the headers are accepted exactly
/// when every `Content-Length` (in any ASCII case) has a trimmed value of
/// digits only that fits `usize`, and all those values agree; the length is
/// then that value, or zero when there is no such header.
pub proof fn lemma_content_length_rule(hs: Seq<HeaderView>)
    ensures
        (content_length_of(hs) is Ok) == ((forall|i: int|
            0 <= i < hs.len() && is_length_header(#[trigger] hs[i]) ==> length_ok(
                length_text(hs[i]),
            )) && (forall|i: int, j: int|
            0 <= i < hs.len() && 0 <= j < hs.len() && is_length_header(#[trigger] hs[i])
                && is_length_header(#[trigger] hs[j]) ==> decimal_value(length_text(hs[i]))
                == decimal_value(length_text(hs[j])))),
        content_length_of(hs) matches Ok(n) ==> {
            &&& forall|i: int| 0 <= i < hs.len() && is_length_header(#[trigger] hs[i])
                ==> decimal_value(length_text(hs[i])) == n
            &&& (forall|i: int| 0 <= i < hs.len() ==> !is_length_header(#[trigger] hs[i])) ==> n
                == 0
        },
{
    lemma_scan_rule(hs, None);
}

spec fn found_nat(found: Option<usize>) -> Option<nat> {
    match found {
        Some(n) => Some(n as nat),
        None => None,
    }
}

/// Resolve the message body length. Absent means zero, but a present header must
/// be strictly numeric and non-conflicting — otherwise framing desyncs the TCP
/// stream, so we error instead of guessing.
fn content_length(headers: &Headers) -> (r: Result<usize, Error>)
    ensures
        match (r, content_length_of(headers@)) {
            (Ok(n), Ok(m)) => n as nat == m,
            (Err(e), Err(f)) => e matches Error::Rtsp(msg) && msg@ == fault_message(f),
            _ => false,
        },
{
    let hs = headers.iter();
    let ghost hv = headers@;
    let cl = content_length_vec();
    let mut found: Option<usize> = None;
    let mut i: usize = 0;
    assert(hv.skip(0) =~= hv);
    while i < hs.len()
        invariant
            0 <= i <= hs@.len(),
            hv == headers@,
            hs@.map_values(|e: (String, String)| (e.0@, e.1@)) == hv,
            cl@ == content_length_name(),
            content_length_of(hv) == content_length_scan(hv.skip(i as int), found_nat(found)),
        decreases hs@.len() - i,
    {
        assert(hv.skip(i as int)[0] == (hs@[i as int].0@, hs@[i as int].1@));
        assert(hv.skip(i as int).drop_first() =~= hv.skip(i + 1));
        let name = hs[i].0.as_str();
        let ghost h0 = hv.skip(i as int)[0];
        if bytes_eq_ignore_ascii_case(name.as_bytes(), cl.as_slice()) {
            assert(eq_ignore_ascii_case(encode_utf8(h0.0), content_length_name()));
            let text = str_trim(hs[i].1.as_str());
            let digits = text.as_bytes();
            assert(digits@ == encode_utf8(trim(h0.1)));
            if digits.len() == 0 || !check_all_digits(digits) {
                assert(content_length_scan(hv.skip(i as int), found_nat(found)) == Err::<
                    nat,
                    RtspFault,
                >(RtspFault::InvalidContentLength));
                return Err(Error::Rtsp(String::from_str("invalid content-length")));
            }
            let n = match parse_decimal(digits) {
                Some(n) => n,
                None => {
                    return Err(Error::Rtsp(String::from_str("content-length too large")));
                },
            };
            match found {
                Some(prev) => {
                    if prev != n {
                        return Err(Error::Rtsp(String::from_str("conflicting content-length")));
                    }
                },
                None => {},
            }
            found = Some(n);
        }
        i += 1;
    }
    assert(hv.skip(i as int) =~= Seq::<HeaderView>::empty());
    match found {
        Some(n) => Ok(n),
        None => Ok(0),
    }
}

/// What parsing the start of `buf` yields: nothing yet while the head or the
/// body is incomplete, or the response and the byte count it spans.
pub open spec fn response_of(buf: Seq<u8>) -> Result<Option<(ResponseView, int)>, RtspFault> {
    match find_from(buf, head_end_marker(), 0) {
        None => Ok(None),
        Some(he) => {
            let lines = crlf_lines(buf.take(he));
            if lines.len() == 0 {
                Err(RtspFault::EmptyResponse)
            } else {
                match status_line(lines[0]) {
                    Err(f) => Err(f),
                    Ok((status, reason)) => match header_lines(lines.drop_first()) {
                        Err(f) => Err(f),
                        Ok(hs) => match content_length_of(hs) {
                            Err(f) => Err(f),
                            Ok(n) => {
                                let body_start = he + 4;
                                if body_start + n > usize::MAX {
                                    Err(RtspFault::ContentLengthOverflow)
                                } else if buf.len() < body_start + n {
                                    Ok(None)
                                } else {
                                    Ok(
                                        Some(
                                            (
                                                ResponseView {
                                                    status,
                                                    reason,
                                                    headers: hs,
                                                    body: buf.subrange(body_start, body_start + n),
                                                },
                                                body_start + n,
                                            ),
                                        ),
                                    )
                                }
                            },
                        },
                    },
                }
            }
        },
    }
}

proof fn lemma_find_from_extend(h: Seq<u8>, extra: Seq<u8>, n: Seq<u8>, i: int)
    requires
        0 <= i,
        find_from(h, n, i) is Some,
    ensures
        find_from(h + extra, n, i) == find_from(h, n, i),
    decreases h.len() + 1 - i,
{
    lemma_find_from(h, n, i);
    let hx = h + extra;
    if i + n.len() <= h.len() {
        assert(hx.subrange(i, i + n.len()) =~= h.subrange(i, i + n.len()));
        if !occurs_at(h, n, i) {
            lemma_find_from_extend(h, extra, n, i + 1);
        }
    }
}

/// A response that is complete (or already malformed) in `buf` parses the
/// same when more bytes follow it: pipelined messages do not disturb the
/// first one, and the count it reports ends within `buf`, right after its body.
pub proof fn lemma_response_prefix(buf: Seq<u8>, extra: Seq<u8>)
    requires
        !(response_of(buf) matches Ok(None)),
    ensures
        response_of(buf + extra) == response_of(buf),
        response_of(buf) matches Ok(Some((v, n))) ==> n <= buf.len() && v.body == buf.subrange(
            n - v.body.len(),
            n,
        ),
{
    let bx = buf + extra;
    lemma_find_from(buf, head_end_marker(), 0);
    lemma_find_from_extend(buf, extra, head_end_marker(), 0);
    let he = find_from(buf, head_end_marker(), 0).unwrap();
    assert(bx.take(he) =~= buf.take(he));
    match response_of(buf) {
        Ok(Some((v, n))) => {
            assert(bx.subrange(he + 4, n) =~= buf.subrange(he + 4, n));
        },
        _ => {},
    }
}

/// What the head of a response (the bytes before `\r\n\r\n`) says: the
/// status, the reason, the headers and the body length they declare.
pub open spec fn response_head(head: Seq<u8>) -> Result<(u16, Seq<char>, Seq<HeaderView>, nat), RtspFault> {
    let lines = crlf_lines(head);
    if lines.len() == 0 {
        Err(RtspFault::EmptyResponse)
    } else {
        match status_line(lines[0]) {
            Err(f) => Err(f),
            Ok((status, reason)) => match header_lines(lines.drop_first()) {
                Err(f) => Err(f),
                Ok(hs) => match content_length_of(hs) {
                    Err(f) => Err(f),
                    Ok(n) => Ok((status, reason, hs, n)),
                },
            },
        }
    }
}

proof fn lemma_find_from_first(h: Seq<u8>, n: Seq<u8>, i: int, k: int)
    requires
        find_from(h, n, i) == Some(k),
    ensures
        forall|j: int| i <= j < k ==> !occurs_at(h, n, j),
    decreases h.len() + 1 - i,
{
    if !(i < 0 || i + n.len() > h.len()) && !occurs_at(h, n, i) {
        lemma_find_from_first(h, n, i + 1, k);
    }
}

/// How a response is framed. Without `\r\n\r\n` in the buffer more bytes are
/// needed. Otherwise, with `h` where it first occurs: a bad head is an error;
/// a good one declaring `n` body bytes spans `h + 4 + n` bytes (an error
/// where that overflows), needs more bytes while the buffer is shorter, and
/// else is complete, its body the `n` bytes after the head.
pub proof fn lemma_response_framing(buf: Seq<u8>)
    ensures
        match find_from(buf, head_end_marker(), 0) {
            None => response_of(buf) == Ok::<Option<(ResponseView, int)>, RtspFault>(None),
            Some(h) => {
                &&& occurs_at(buf, head_end_marker(), h)
                &&& forall|j: int| 0 <= j < h ==> !occurs_at(buf, head_end_marker(), j)
                &&& match response_head(buf.take(h)) {
                    Err(f) => response_of(buf) == Err::<Option<(ResponseView, int)>, RtspFault>(f),
                    Ok((status, reason, headers, n)) => if h + 4 + n > usize::MAX {
                        response_of(buf) == Err::<Option<(ResponseView, int)>, RtspFault>(
                            RtspFault::ContentLengthOverflow,
                        )
                    } else if buf.len() < h + 4 + n {
                        response_of(buf) == Ok::<Option<(ResponseView, int)>, RtspFault>(None)
                    } else {
                        response_of(buf) == Ok::<Option<(ResponseView, int)>, RtspFault>(
                            Some(
                                (
                                    ResponseView {
                                        status,
                                        reason,
                                        headers,
                                        body: buf.subrange(h + 4, h + 4 + n),
                                    },
                                    h + 4 + n,
                                ),
                            ),
                        )
                    },
                }
            },
        },
{
    lemma_find_from(buf, head_end_marker(), 0);
    match find_from(buf, head_end_marker(), 0) {
        Some(h) => lemma_find_from_first(buf, head_end_marker(), 0, h),
        None => {},
    }
}

/// Parse one response from `buf`.
///
/// Returns `Ok(None)` when more bytes are needed (headers or body incomplete),
/// or `Ok(Some((response, consumed)))` where `consumed` is the total byte count
/// of this message so the caller can advance its buffer.
pub fn parse_response(buf: &[u8]) -> (r: Result<Option<(Response, usize)>, Error>)
    ensures
        match (r, response_of(buf@)) {
            (Ok(None), Ok(None)) => true,
            (Ok(Some((resp, n))), Ok(Some((v, m)))) => resp@ == v && n == m,
            (Err(e), Err(f)) => e matches Error::Rtsp(msg) && msg@ == fault_message(f),
            _ => false,
        },
{
    let marker = vec![13u8, 10, 13, 10];
    assert(marker@ =~= head_end_marker());
    let head_end = match find(buf, marker.as_slice()) {
        Some(h) => h,
        None => {
            return Ok(None);
        },
    };
    let buf_len = buf.len();
    proof {
        lemma_find_from(buf@, head_end_marker(), 0);
    }
    let head = vstd::slice::slice_subrange(buf, 0, head_end);
    assert(head@ =~= buf@.take(head_end as int));
    let ranges = split_crlf(head);
    let ghost lines = crlf_lines(head@);
    if ranges.len() == 0 {
        return Err(Error::Rtsp(String::from_str("empty response")));
    }
    let status_line_bytes = vstd::slice::slice_subrange(head, ranges[0].0, ranges[0].1);
    assert(status_line_bytes@ == lines[0]);
    let (status, reason) = match parse_status_line(status_line_bytes) {
        Ok(p) => p,
        Err(e) => {
            return Err(e);
        },
    };
    let mut headers = Headers::new();
    let ghost rest = lines.drop_first();
    let mut k: usize = 1;
    assert(lines.skip(1) =~= rest);
    assert(headers@ + Seq::<HeaderView>::empty() =~= headers@);
    while k < ranges.len()
        invariant
            1 <= k <= ranges@.len(),
            head@ == buf@.take(head_end as int),
            find_from(buf@, head_end_marker(), 0) == Some(head_end as int),
            lines == crlf_lines(head@),
            status_line(lines[0]) matches Ok((c, t)) && c == status && t == reason@,
            ranges_in(head@, ranges@),
            ranges_of(head@, ranges@) == lines,
            rest == lines.drop_first(),
            match header_lines(lines.skip(k as int)) {
                Ok(tail) => header_lines(rest) == Ok::<Seq<HeaderView>, RtspFault>(
                    headers@ + tail,
                ),
                Err(f) => header_lines(rest) == Err::<Seq<HeaderView>, RtspFault>(f),
            },
        decreases ranges@.len() - k,
    {
        let line = vstd::slice::slice_subrange(head, ranges[k].0, ranges[k].1);
        assert(line@ == lines[k as int]);
        assert(lines.skip(k as int)[0] == lines[k as int]);
        assert(lines.skip(k as int).drop_first() =~= lines.skip(k + 1));
        let ghost before = headers@;
        match parse_header_line(line) {
            Ok((name, value)) => {
                headers.push(name.as_str(), value.as_str());
                proof {
                    match header_lines(lines.skip(k + 1)) {
                        Ok(tail) => {
                            assert(before + (seq![(name@, value@)] + tail) =~= headers@ + tail);
                        },
                        Err(_) => {},
                    }
                }
            },
            Err(e) => {
                proof {
                    match header_line(line@) {
                        Err(f) => {
                            assert(header_lines(lines.skip(k as int)) == Err::<
                                Seq<HeaderView>,
                                RtspFault,
                            >(f));
                            assert(header_lines(rest) == Err::<Seq<HeaderView>, RtspFault>(f));
                            assert(lines.len() > 0);
                            assert(status_line(lines[0]) is Ok);
                            assert(response_of(buf@) == Err::<
                                Option<(ResponseView, int)>,
                                RtspFault,
                            >(f));
                        },
                        Ok(_) => {},
                    }
                }
                return Err(e);
            },
        }
        k += 1;
    }
    assert(lines.skip(k as int) =~= Seq::<Seq<u8>>::empty());
    assert(headers@ + Seq::<HeaderView>::empty() =~= headers@);
    let content_len = match content_length(&headers) {
        Ok(n) => n,
        Err(e) => {
            return Err(e);
        },
    };
    let body_start = head_end + 4;
    let end = match body_start.checked_add(content_len) {
        Some(end) => end,
        None => {
            return Err(Error::Rtsp(String::from_str("content-length overflow")));
        },
    };
    if buf.len() < end {
        return Ok(None);
    }
    let body = copy_range(buf, body_start, end);
    let response = Response { status, reason, headers, body };
    Ok(Some((response, end)))
}

} // verus!
