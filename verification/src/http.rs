//! The HTTP side of the websocket handshake: reading and parsing the request
//! head, looking up headers, deriving the accept key, and the response bytes.
use vstd::prelude::*;
use vstd::utf8::{decode_utf8, valid_utf8, encode_utf8};
use vstd::string::StringSliceAdditionalSpecFns;
use crate::base64::{base64_encode, spec_base64};
use crate::sha1::{sha1_digest, sha1_input_ok, spec_sha1};
use crate::strings::{chars_of, push_str_bytes, string_from_utf8};
use crate::text::{
    lemma_index_of_bounds,
    after_first_line, eq_ignore_ascii_case, find_char, first_line, first_word, index_of,
    index_of_ws, is_whitespace, is_ws, lemma_index_of_ws, lemma_trim_end_cr, lemma_trim_start,
    lines, range_eq_ignore_ascii_case, is_ascii_letter, lemma_index_of_first, lemma_trim_lacks, lemma_case_equal_index_of,
    lemma_case_equal_laws, lemma_case_equal_subrange, lemma_case_equal_trim, string_from_range, trim, trim_end_cr, trim_range,
    trim_start,
};

verus! {

/// Largest request head that is accepted, in bytes.
pub const MAX_HTTP_HEADER_BYTES: usize = 64 * 1024;

/// The GUID that RFC 6455 appends to the client key.
pub const WEBSOCKET_MAGIC: &'static str = "258EAFA5-E914-47DA-95CA-C5AB0DC85B11";

/// A parsed request head: the method and the headers in order.
pub struct HttpRequest {
    pub method: String,
    pub headers: Vec<(String, String)>,
}

pub type HeaderView = Seq<(Seq<char>, Seq<char>)>;

impl View for HttpRequest {
    type V = (Seq<char>, HeaderView);

    open spec fn view(&self) -> (Seq<char>, HeaderView) {
        (self.method@, self.headers@.map_values(|h: (String, String)| (h.0@, h.1@)))
    }
}

/// Why a request head was refused.
#[derive(Debug, PartialEq, Eq, Clone, Copy)]
pub enum HttpError {
    /// The connection closed before the head was complete.
    UnexpectedEof,
    /// The head grew past `MAX_HTTP_HEADER_BYTES`.
    HeadersTooLarge,
    /// The head was not UTF-8.
    NotUtf8,
    /// There was no request line.
    MissingRequestLine,
    /// The request line held no method.
    MissingMethod,
    /// A header line had no `':'`.
    MalformedHeader,
}

/// Where reading the request head stands after one more byte.
#[derive(Debug, PartialEq, Eq, Clone, Copy)]
pub enum HeaderProgress {
    Incomplete,
    Complete,
    TooLarge,
}

/// The head ends in a blank line (`"\r\n\r\n"` or `"\n\n"`).
pub open spec fn head_terminated(raw: Seq<u8>) -> bool {
    let n = raw.len();
    (n >= 4 && raw[n - 4] == 13u8 && raw[n - 3] == 10u8 && raw[n - 2] == 13u8 && raw[n - 1]
        == 10u8) || (n >= 2 && raw[n - 2] == 10u8 && raw[n - 1] == 10u8)
}

/// Appends one received byte to the head and says whether it is complete,
/// too large, or still growing (the size limit is checked first).
pub fn push_header_byte(raw: &mut Vec<u8>, byte: u8) -> (p: HeaderProgress)
    requires
        old(raw)@.len() < usize::MAX,
    ensures
        final(raw)@ == old(raw)@.push(byte),
        p == (if final(raw)@.len() > MAX_HTTP_HEADER_BYTES {
            HeaderProgress::TooLarge
        } else if head_terminated(final(raw)@) {
            HeaderProgress::Complete
        } else {
            HeaderProgress::Incomplete
        }),
{
    raw.push(byte);
    let n = raw.len();
    if n > MAX_HTTP_HEADER_BYTES {
        return HeaderProgress::TooLarge;
    }
    if n >= 4 && raw[n - 4] == 13u8 && raw[n - 3] == 10u8 && raw[n - 2] == 13u8 && raw[n - 1]
        == 10u8 {
        return HeaderProgress::Complete;
    }
    if n >= 2 && raw[n - 2] == 10u8 && raw[n - 1] == 10u8 {
        return HeaderProgress::Complete;
    }
    HeaderProgress::Incomplete
}

/// Headers from the lines after the request line, up to the first empty line.
pub open spec fn parse_header_lines(ls: Seq<Seq<char>>) -> Result<HeaderView, HttpError>
    decreases ls.len(),
{
    if ls.len() == 0 {
        Ok(seq![])
    } else {
        let l = trim_end_cr(ls[0]);
        let k = index_of(l, ':');
        if l.len() == 0 {
            Ok(seq![])
        } else if k >= l.len() {
            Err(HttpError::MalformedHeader)
        } else {
            match parse_header_lines(ls.drop_first()) {
                Ok(rest) => Ok(
                    seq![(trim(l.subrange(0, k)), trim(l.subrange(k + 1, l.len() as int)))]
                        + rest,
                ),
                Err(e) => Err(e),
            }
        }
    }
}

/// The request head `text` parsed: method and headers.
pub open spec fn spec_parse_request(text: Seq<char>) -> Result<(Seq<char>, HeaderView), HttpError> {
    let ls = lines(text);
    if ls.len() == 0 {
        Err(HttpError::MissingRequestLine)
    } else {
        match first_word(ls[0]) {
            None => Err(HttpError::MissingMethod),
            Some(m) => match parse_header_lines(ls.drop_first()) {
                Ok(h) => Ok((m, h)),
                Err(e) => Err(e),
            },
        }
    }
}

/// The raw request head parsed: UTF-8 first, then lines.
pub open spec fn spec_parse_raw(raw: Seq<u8>) -> Result<(Seq<char>, HeaderView), HttpError> {
    if valid_utf8(raw) {
        spec_parse_request(decode_utf8(raw))
    } else {
        Err(HttpError::NotUtf8)
    }
}

/// Bounds of the first line of `t[p..n]` (without the `'\r'` that
/// `str::lines` drops) and where the next line starts.
fn line_bounds(t: &Vec<char>, p: usize) -> (r: (usize, usize))
    requires
        p < t@.len(),
    ensures
        p <= r.0 <= r.1 <= t@.len(),
        r.0 <= r.1,
        first_line(t@.subrange(p as int, t@.len() as int)) == t@.subrange(p as int, r.0 as int),
        after_first_line(t@.subrange(p as int, t@.len() as int)) == t@.subrange(
            r.1 as int,
            t@.len() as int,
        ),
        r.1 > p,
{
    let n = t.len();
    let e = find_char(t, p, n, '\n');
    let ghost sub = t@.subrange(p as int, n as int);
    if e < n {
        assert(sub.subrange(0, e - p) =~= t@.subrange(p as int, e as int));
        assert(sub.subrange(e - p + 1, sub.len() as int) =~= t@.subrange(e + 1, n as int));
        if e > p && t[e - 1] == '\r' {
            assert(t@.subrange(p as int, e as int).drop_last() =~= t@.subrange(p as int, e - 1));
            (e - 1, e + 1)
        } else {
            (e, e + 1)
        }
    } else {
        assert(t@.subrange(n as int, n as int) =~= Seq::<char>::empty());
        (n, n)
    }
}

/// Parses the characters of a request head.
pub fn parse_request_chars(t: &Vec<char>) -> (r: Result<HttpRequest, HttpError>)
    ensures
        match r {
            Ok(req) => spec_parse_request(t@) == Ok::<_, HttpError>(req@),
            Err(e) => spec_parse_request(t@) == Err::<(Seq<char>, HeaderView), _>(e),
        },
{
    let n = t.len();
    if n == 0 {
        return Err(HttpError::MissingRequestLine);
    }
    assert(t@.subrange(0, n as int) =~= t@);
    let (le, next) = line_bounds(t, 0);
    let ghost l0 = t@.subrange(0, le as int);
    assert(lines(t@)[0] == l0);
    assert(lines(t@).drop_first() =~= lines(t@.subrange(next as int, n as int)));
    // The method: the first word of the request line.
    let mut a: usize = 0;
    while a < le && is_whitespace(t[a])
        invariant
            a <= le <= n == t@.len(),
            forall|j: int| 0 <= j < a ==> is_ws(t@[j]),
        decreases le - a,
    {
        a = a + 1;
    }
    proof {
        lemma_trim_start(l0, a as int);
    }
    if a == le {
        assert(trim_start(l0).len() == 0);
        return Err(HttpError::MissingMethod);
    }
    let mut b: usize = a;
    while b < le && !is_whitespace(t[b])
        invariant
            a <= b <= le <= n == t@.len(),
            forall|j: int| a <= j < b ==> !is_ws(t@[j]),
        decreases le - b,
    {
        b = b + 1;
    }
    proof {
        let ts = l0.subrange(a as int, le as int);
        assert(ts =~= t@.subrange(a as int, le as int));
        lemma_index_of_ws(ts, b - a);
        assert(ts.subrange(0, b - a) =~= t@.subrange(a as int, b as int));
    }
    let method = string_from_range(t, a, b);
    assert(first_word(lines(t@)[0]) == Some(method@));
    assert(spec_parse_request(t@) == (match parse_header_lines(
        lines(t@.subrange(next as int, n as int)),
    ) {
        Ok(h) => Ok((method@, h)),
        Err(e) => Err(e),
    }));
    // The headers.
    let mut headers: Vec<(String, String)> = Vec::new();
    let mut p = next;
    while p < n
        invariant
            next <= p <= n == t@.len(),
            spec_parse_request(t@) == (match parse_header_lines(
                lines(t@.subrange(next as int, n as int)),
            ) {
                Ok(h) => Ok((method@, h)),
                Err(e) => Err(e),
            }),
            parse_header_lines(lines(t@.subrange(next as int, n as int))) == (match parse_header_lines(
                lines(t@.subrange(p as int, n as int)),
            ) {
                Ok(rest) => Ok(
                    headers@.map_values(|h: (String, String)| (h.0@, h.1@)) + rest,
                ),
                Err(e) => Err(e),
            }),
        decreases n - p,
    {
        let ghost sub = t@.subrange(p as int, n as int);
        let (le, nx) = line_bounds(t, p);
        assert(lines(sub)[0] == t@.subrange(p as int, le as int));
        assert(lines(sub).drop_first() =~= lines(t@.subrange(nx as int, n as int)));
        let ghost l = t@.subrange(p as int, le as int);
        let mut hi = le;
        while hi > p && t[hi - 1] == '\r'
            invariant
                p <= hi <= le <= n == t@.len(),
                forall|j: int| hi <= j < le ==> t@[j] == '\r',
            decreases hi - p,
        {
            hi = hi - 1;
        }
        proof {
            lemma_trim_end_cr(l, hi - p);
            assert(l.subrange(0, hi - p) =~= t@.subrange(p as int, hi as int));
        }
        if hi == p {
            // A blank line ends the head.
            assert(parse_header_lines(lines(sub)) == Ok::<HeaderView, HttpError>(seq![]));
            assert(t@.subrange(n as int, n as int) =~= Seq::<char>::empty());
            assert(lines(t@.subrange(n as int, n as int)) =~= Seq::<Seq<char>>::empty());
            p = n;
            continue;
        }
        let ghost l2 = t@.subrange(p as int, hi as int);
        let colon = find_char(t, p, hi, ':');
        if colon == hi {
            assert(trim_end_cr(lines(sub)[0]) == l2);
            assert(index_of(l2, ':') == l2.len());
            assert(parse_header_lines(lines(sub)) == Err::<HeaderView, _>(HttpError::MalformedHeader));
            return Err(HttpError::MalformedHeader);
        }
        let (na, nb) = trim_range(t, p, colon);
        let (va, vb) = trim_range(t, colon + 1, hi);
        proof {
            assert(l2.subrange(0, colon - p) =~= t@.subrange(p as int, colon as int));
            assert(l2.subrange(colon - p + 1, l2.len() as int) =~= t@.subrange(
                colon + 1,
                hi as int,
            ));
        }
        let name = string_from_range(t, na, nb);
        let value = string_from_range(t, va, vb);
        let ghost old_view = headers@.map_values(|h: (String, String)| (h.0@, h.1@));
        headers.push((name, value));
        proof {
            let new_view = headers@.map_values(|h: (String, String)| (h.0@, h.1@));
            assert(new_view =~= old_view.push((t@.subrange(na as int, nb as int), t@.subrange(
                va as int,
                vb as int,
            ))));
            match parse_header_lines(lines(t@.subrange(nx as int, n as int))) {
                Ok(rest) => {
                    assert(old_view + (seq![(t@.subrange(na as int, nb as int), t@.subrange(va as int, vb as int))] + rest)
                        =~= new_view + rest);
                },
                Err(e) => {},
            }
        }
        p = nx;
    }
    proof {
        if p == n {
            assert(t@.subrange(p as int, n as int) =~= Seq::<char>::empty());
            assert(lines(t@.subrange(p as int, n as int)) =~= Seq::<Seq<char>>::empty());
            assert(headers@.map_values(|h: (String, String)| (h.0@, h.1@)) + seq![]
                =~= headers@.map_values(|h: (String, String)| (h.0@, h.1@)));
        }
    }
    Ok(HttpRequest { method, headers })
}

/// Parses a raw request head (the bytes up to and including the blank line).
pub fn parse_http_request(raw: Vec<u8>) -> (r: Result<HttpRequest, HttpError>)
    ensures
        match r {
            Ok(req) => spec_parse_raw(raw@) == Ok::<_, HttpError>(req@),
            Err(e) => spec_parse_raw(raw@) == Err::<(Seq<char>, HeaderView), _>(e),
        },
{
    let ghost bytes = raw@;
    match string_from_utf8(raw) {
        Err(_) => Err(HttpError::NotUtf8),
        Ok(s) => {
            let t = chars_of(s.as_str());
            parse_request_chars(&t)
        },
    }
}

/// The value of the first header whose name equals `name` up to ASCII case.
pub open spec fn find_header(hs: HeaderView, name: Seq<char>) -> Option<Seq<char>>
    decreases hs.len(),
{
    if hs.len() == 0 {
        None
    } else if eq_ignore_ascii_case(hs[0].0, name) {
        Some(hs[0].1)
    } else {
        find_header(hs.drop_first(), name)
    }
}

/// True when one of the `','`-separated pieces of `s`, trimmed, equals
/// `token` up to ASCII case (`split(',').any(..)`).
pub open spec fn token_in_list(s: Seq<char>, token: Seq<char>) -> bool
    decreases s.len(),
    via token_in_list_decreases
{
    let e = index_of(s, ',');
    if e >= s.len() {
        eq_ignore_ascii_case(trim(s), token)
    } else {
        eq_ignore_ascii_case(trim(s.subrange(0, e)), token) || token_in_list(
            s.subrange(e + 1, s.len() as int),
            token,
        )
    }
}

#[via_fn]
proof fn token_in_list_decreases(s: Seq<char>, token: Seq<char>) {
    lemma_index_of_bounds(s, ',');
}

/// The value of the first header named `name` (ASCII case ignored).
pub fn header_value<'a>(request: &'a HttpRequest, name: &str) -> (r: Option<&'a str>)
    ensures
        match r {
            Some(v) => find_header(request@.1, name@) == Some(v@),
            None => find_header(request@.1, name@) is None,
        },
{
    let wanted = chars_of(name);
    let ghost hs = request@.1;
    let mut i: usize = 0;
    assert(hs.subrange(0, hs.len() as int) =~= hs);
    while i < request.headers.len()
        invariant
            i <= request.headers@.len(),
            hs == request@.1,
            wanted@ == name@,
            find_header(hs, name@) == find_header(hs.subrange(i as int, hs.len() as int), name@),
        decreases request.headers@.len() - i,
    {
        let ghost rest = hs.subrange(i as int, hs.len() as int);
        let header = &request.headers[i];
        let hname = chars_of(header.0.as_str());
        assert(rest[0] == (header.0@, header.1@));
        if range_eq_ignore_ascii_case(&hname, 0, hname.len(), &wanted) {
            assert(hname@.subrange(0, hname@.len() as int) =~= hname@);
            return Some(header.1.as_str());
        }
        assert(hname@.subrange(0, hname@.len() as int) =~= hname@);
        assert(rest.drop_first() =~= hs.subrange(i + 1, hs.len() as int));
        i = i + 1;
    }
    None
}

/// The first header named `name` equals `value`, both up to ASCII case.
pub fn header_eq(request: &HttpRequest, name: &str, value: &str) -> (r: bool)
    ensures
        r == (match find_header(request@.1, name@) {
            Some(v) => eq_ignore_ascii_case(v, value@),
            None => false,
        }),
{
    match header_value(request, name) {
        Some(v) => {
            let vc = chars_of(v);
            let wanted = chars_of(value);
            assert(vc@.subrange(0, vc@.len() as int) =~= vc@);
            range_eq_ignore_ascii_case(&vc, 0, vc.len(), &wanted)
        },
        None => false,
    }
}

/// The first header named `name` holds `token` among its comma-separated,
/// trimmed parts (ASCII case ignored).
pub fn header_contains_token(request: &HttpRequest, name: &str, token: &str) -> (r: bool)
    ensures
        r == (match find_header(request@.1, name@) {
            Some(v) => token_in_list(v, token@),
            None => false,
        }),
{
    match header_value(request, name) {
        Some(v) => {
            let vc = chars_of(v);
            let tok = chars_of(token);
            let n = vc.len();
            let mut p: usize = 0;
            assert(vc@.subrange(0, n as int) =~= vc@);
            loop
                invariant
                    p <= n == vc@.len(),
                    tok@ == token@,
                    vc@ == v@,
                    find_header(request@.1, name@) == Some(v@),
                    token_in_list(vc@, token@) == token_in_list(vc@.subrange(p as int, n as int), token@),
                decreases n - p,
            {
                let ghost sub = vc@.subrange(p as int, n as int);
                let e = find_char(&vc, p, n, ',');
                let (a, b) = trim_range(&vc, p, e);
                assert(sub.subrange(0, e - p) =~= vc@.subrange(p as int, e as int));
                if range_eq_ignore_ascii_case(&vc, a, b, &tok) {
                    if e < n {
                    } else {
                        assert(sub =~= vc@.subrange(p as int, e as int));
                    }
                    return true;
                }
                if e == n {
                    assert(sub =~= vc@.subrange(p as int, e as int));
                    return false;
                }
                assert(sub.subrange(e - p + 1, sub.len() as int) =~= vc@.subrange(e + 1, n as int));
                p = e + 1;
            }
        },
        None => false,
    }
}

/// The accept key for a client key: base64 of SHA-1 of the key bytes
/// followed by the RFC 6455 GUID.
pub open spec fn spec_accept_key(key: Seq<char>) -> Seq<char> {
    spec_base64(spec_sha1(encode_utf8(key) + WEBSOCKET_MAGIC.spec_bytes()))
}

/// The request is a websocket upgrade: a `GET` with `Upgrade: websocket`,
/// an `upgrade` token in `Connection`, and version 13.
pub open spec fn is_websocket_upgrade(req: (Seq<char>, HeaderView)) -> bool {
    &&& eq_ignore_ascii_case(req.0, "GET"@)
    &&& find_header(req.1, "Upgrade"@) matches Some(v) && eq_ignore_ascii_case(v, "websocket"@)
    &&& find_header(req.1, "Connection"@) matches Some(v) && token_in_list(v, "upgrade"@)
    &&& find_header(req.1, "Sec-WebSocket-Version"@) matches Some(v) && eq_ignore_ascii_case(
        v,
        "13"@,
    )
}

/// Every header value is short enough to be hashed with the GUID.
pub open spec fn header_values_hashable(req: (Seq<char>, HeaderView)) -> bool {
    forall|i: int|
        0 <= i < req.1.len() ==> sha1_input_ok(
            encode_utf8(#[trigger] req.1[i].1).len() + WEBSOCKET_MAGIC.spec_bytes().len(),
        )
}

proof fn lemma_find_header_in(hs: HeaderView, name: Seq<char>)
    ensures
        find_header(hs, name) matches Some(v) ==> exists|i: int| 0 <= i < hs.len() && hs[i].1 == v,
    decreases hs.len(),
{
    if hs.len() > 0 && !eq_ignore_ascii_case(hs[0].0, name) {
        lemma_find_header_in(hs.drop_first(), name);
        if let Some(v) = find_header(hs, name) {
            let i = choose|i: int| 0 <= i < hs.drop_first().len() && hs.drop_first()[i].1 == v;
            assert(hs[i + 1].1 == v);
        }
    }
}

/// The `Sec-WebSocket-Accept` value for an upgrade request, or `None` when
/// the request is no websocket upgrade or has no key.
pub fn websocket_accept_key(request: &HttpRequest) -> (r: Option<String>)
    requires
        header_values_hashable(request@),
    ensures
        r is Some <==> is_websocket_upgrade(request@) && find_header(
            request@.1,
            "Sec-WebSocket-Key"@,
        ) is Some,
        r matches Some(k) ==> k@ == spec_accept_key(
            find_header(request@.1, "Sec-WebSocket-Key"@)->0,
        ),
{
    let method = chars_of(request.method.as_str());
    let get = chars_of("GET");
    assert(method@.subrange(0, method@.len() as int) =~= method@);
    if !range_eq_ignore_ascii_case(&method, 0, method.len(), &get) {
        return None;
    }
    if !header_eq(request, "Upgrade", "websocket") {
        return None;
    }
    if !header_contains_token(request, "Connection", "upgrade") {
        return None;
    }
    if !header_eq(request, "Sec-WebSocket-Version", "13") {
        return None;
    }
    let key = match header_value(request, "Sec-WebSocket-Key") {
        Some(k) => k,
        None => {
            return None;
        },
    };
    proof {
        lemma_find_header_in(request@.1, "Sec-WebSocket-Key"@);
    }
    let mut input: Vec<u8> = Vec::new();
    push_str_bytes(&mut input, key);
    push_str_bytes(&mut input, WEBSOCKET_MAGIC);
    assert(input@ == encode_utf8(key@) + WEBSOCKET_MAGIC.spec_bytes());
    let digest = sha1_digest(input.as_slice());
    Some(base64_encode(&digest))
}

/// Decimal digits of `n` as ASCII bytes, most significant first.
pub open spec fn decimal_bytes(n: nat) -> Seq<u8>
    decreases n,
{
    if n < 10 {
        seq![(48 + n) as u8]
    } else {
        decimal_bytes(n / 10).push((48 + n % 10) as u8)
    }
}

/// Appends the decimal digits of `n` to `out`.
pub fn push_decimal(out: &mut Vec<u8>, n: usize)
    ensures
        final(out)@ == old(out)@ + decimal_bytes(n as nat),
    decreases n,
{
    if n >= 10 {
        push_decimal(out, n / 10);
    }
    out.push(48u8 + (n % 10) as u8);
    assert(final(out)@ =~= old(out)@ + decimal_bytes(n as nat)) by {
        if n >= 10 {
            assert(old(out)@ + decimal_bytes(n as nat) =~= old(out)@ + decimal_bytes((n / 10) as nat) + seq![(48 + n % 10) as u8]);
        }
    }
}

/// One `"name: value\r\n"` line per header.
pub open spec fn header_lines(headers: Seq<(&str, &str)>) -> Seq<u8>
    decreases headers.len(),
{
    if headers.len() == 0 {
        seq![]
    } else {
        header_lines(headers.drop_last()) + headers.last().0.spec_bytes() + ": ".spec_bytes()
            + headers.last().1.spec_bytes() + "\r\n".spec_bytes()
    }
}

/// The bytes of an HTTP/1.1 response with a `Content-Length` header.
pub open spec fn spec_http_response(status: &str, headers: Seq<(&str, &str)>, body: Seq<u8>) -> Seq<u8> {
    "HTTP/1.1 ".spec_bytes() + status.spec_bytes() + "\r\n".spec_bytes()
        + "Content-Length: ".spec_bytes() + decimal_bytes(body.len()) + "\r\n".spec_bytes()
        + header_lines(headers) + "\r\n".spec_bytes() + body
}

/// An HTTP/1.1 response: status line, `Content-Length`, the given headers,
/// a blank line and the body.
pub fn http_response(status: &str, headers: &[(&str, &str)], body: &[u8]) -> (out: Vec<u8>)
    ensures
        out@ == spec_http_response(status, headers@, body@),
{
    let mut out: Vec<u8> = Vec::new();
    push_str_bytes(&mut out, "HTTP/1.1 ");
    push_str_bytes(&mut out, status);
    push_str_bytes(&mut out, "\r\n");
    push_str_bytes(&mut out, "Content-Length: ");
    push_decimal(&mut out, body.len());
    push_str_bytes(&mut out, "\r\n");
    let ghost head = out@;
    let mut i: usize = 0;
    while i < headers.len()
        invariant
            i <= headers@.len(),
            out@ == head + header_lines(headers@.subrange(0, i as int)),
        decreases headers@.len() - i,
    {
        let (name, value) = headers[i];
        push_str_bytes(&mut out, name);
        push_str_bytes(&mut out, ": ");
        push_str_bytes(&mut out, value);
        push_str_bytes(&mut out, "\r\n");
        assert(headers@.subrange(0, i + 1).drop_last() =~= headers@.subrange(0, i as int));
        i = i + 1;
    }
    assert(headers@.subrange(0, headers@.len() as int) =~= headers@);
    push_str_bytes(&mut out, "\r\n");
    let mut j: usize = 0;
    let ghost before_body = out@;
    while j < body.len()
        invariant
            j <= body@.len(),
            out@ == before_body + body@.subrange(0, j as int),
        decreases body@.len() - j,
    {
        out.push(body[j]);
        assert(body@.subrange(0, j + 1) =~= body@.subrange(0, j as int).push(body@[j as int]));
        j = j + 1;
    }
    assert(body@.subrange(0, body@.len() as int) =~= body@);
    out
}

/// The `101 Switching Protocols` response that accepts a websocket upgrade.
pub open spec fn spec_upgrade_response(accept_key: &str) -> Seq<u8> {
    "HTTP/1.1 101 Switching Protocols\r\n".spec_bytes() + "Upgrade: websocket\r\n".spec_bytes()
        + "Connection: Upgrade\r\n".spec_bytes() + "Sec-WebSocket-Accept: ".spec_bytes()
        + accept_key.spec_bytes() + "\r\n".spec_bytes() + "\r\n".spec_bytes()
}

pub fn websocket_upgrade_response(accept_key: &str) -> (out: Vec<u8>)
    ensures
        out@ == spec_upgrade_response(accept_key),
{
    let mut out: Vec<u8> = Vec::new();
    push_str_bytes(&mut out, "HTTP/1.1 101 Switching Protocols\r\n");
    push_str_bytes(&mut out, "Upgrade: websocket\r\n");
    push_str_bytes(&mut out, "Connection: Upgrade\r\n");
    push_str_bytes(&mut out, "Sec-WebSocket-Accept: ");
    push_str_bytes(&mut out, accept_key);
    push_str_bytes(&mut out, "\r\n");
    push_str_bytes(&mut out, "\r\n");
    out
}

/// Whether every header value is short enough to be hashed with the GUID.
pub fn headers_hashable(request: &HttpRequest) -> (b: bool)
    ensures
        b == header_values_hashable(request@),
{
    let m = WEBSOCKET_MAGIC.as_bytes().len();
    let mut i: usize = 0;
    while i < request.headers.len()
        invariant
            i <= request.headers@.len(),
            m == WEBSOCKET_MAGIC.spec_bytes().len(),
            forall|j: int|
                0 <= j < i ==> sha1_input_ok(
                    encode_utf8(#[trigger] request@.1[j].1).len() + WEBSOCKET_MAGIC.spec_bytes().len(),
                ),
        decreases request.headers@.len() - i,
    {
        let n = request.headers[i].1.as_str().as_bytes().len();
        assert(request@.1[i as int].1 == request.headers@[i as int].1@);
        let total = match n.checked_add(m) {
            Some(t) => t,
            None => {
                return false;
            },
        };
        if total > usize::MAX - 72 {
            return false;
        }
        let bits_ok = (total as u64) <= u64::MAX / 8;
        if !bits_ok {
            return false;
        }
        i = i + 1;
    }
    true
}

/// How the server answers the opening request of a connection.
pub enum Handshake {
    /// The request head could not be read: these bytes (a 400) are sent and
    /// the connection ends.
    BadRequest(Vec<u8>),
    /// The request is no websocket upgrade: these bytes (a 426) are sent and
    /// the connection ends.
    UpgradeRequired(Vec<u8>),
    /// The upgrade is accepted: these bytes (the 101) are sent, then the
    /// command's output is streamed.
    Upgrade(Vec<u8>),
}

/// The bytes of the 400 answer.
pub open spec fn bad_request_response() -> Seq<u8> {
    spec_http_response("400 Bad Request", seq![], "bad websocket request\n".spec_bytes())
}

/// The bytes of the 426 answer.
pub open spec fn upgrade_required_response() -> Seq<u8> {
    spec_http_response(
        "426 Upgrade Required",
        seq![("Connection", "close"), ("Upgrade", "websocket")],
        "websocket upgrade required\n".spec_bytes(),
    )
}

/// The answer to a connection's opening request (`None` when it could not
/// be read): a 400 when it could not be read, a 426 when it is no websocket
/// upgrade with a key, and otherwise the 101 with the accept key.
pub fn handshake(request: Option<&HttpRequest>) -> (h: Handshake)
    requires
        request matches Some(req) ==> header_values_hashable(req@),
    ensures
        match request {
            None => h matches Handshake::BadRequest(out) && out@ == bad_request_response(),
            Some(req) => if is_websocket_upgrade(req@) && find_header(
                req@.1,
                "Sec-WebSocket-Key"@,
            ) is Some {
                h matches Handshake::Upgrade(out) && exists|key: &str|
                    key@ == spec_accept_key(find_header(req@.1, "Sec-WebSocket-Key"@)->0)
                        && out@ == spec_upgrade_response(key)
            } else {
                h matches Handshake::UpgradeRequired(out) && out@ == upgrade_required_response()
            },
        },
{
    match request {
        None => {
            let body = "bad websocket request\n".as_bytes();
            let headers: Vec<(&str, &str)> = Vec::new();
            let out = http_response("400 Bad Request", headers.as_slice(), body);
            assert(headers@ =~= seq![]);
            Handshake::BadRequest(out)
        },
        Some(req) => match websocket_accept_key(req) {
            None => {
                let body = "websocket upgrade required\n".as_bytes();
                let headers: Vec<(&str, &str)> = vec![("Connection", "close"), ("Upgrade", "websocket")];
                let out = http_response("426 Upgrade Required", headers.as_slice(), body);
                assert(headers@ =~= seq![("Connection", "close"), ("Upgrade", "websocket")]);
                Handshake::UpgradeRequired(out)
            },
            Some(key) => {
                let out = websocket_upgrade_response(key.as_str());
                Handshake::Upgrade(out)
            },
        },
    }
}

/// Whether a token is among the comma-separated parts of a value does not
/// depend on the value's ASCII case.
pub proof fn lemma_token_in_list_case(a: Seq<char>, b: Seq<char>, token: Seq<char>)
    requires
        eq_ignore_ascii_case(a, b),
    ensures
        token_in_list(a, token) == token_in_list(b, token),
    decreases a.len(),
{
    assert(!is_ascii_letter(','));
    lemma_case_equal_index_of(a, b, ',');
    lemma_index_of_bounds(a, ',');
    let e = index_of(a, ',');
    let (pa, pb) = if e >= a.len() {
        (a, b)
    } else {
        (a.subrange(0, e), b.subrange(0, e))
    };
    if e < a.len() {
        lemma_case_equal_subrange(a, b, 0, e);
    }
    lemma_case_equal_trim(pa, pb);
    lemma_case_equal_laws(trim(pa), trim(pb), token);
    lemma_case_equal_laws(trim(pb), trim(pa), token);
    if e < a.len() {
        lemma_case_equal_subrange(a, b, e + 1, a.len() as int);
        lemma_token_in_list_case(
            a.subrange(e + 1, a.len() as int),
            b.subrange(e + 1, b.len() as int),
            token,
        );
    }
}

/// Header lookup by a name ignores the case of the header names: two header
/// lists whose names differ only in ASCII case find the header at the same
/// place.
pub proof fn lemma_find_header_case(h1: HeaderView, h2: HeaderView, name: Seq<char>)
    requires
        h1.len() == h2.len(),
        forall|i: int| 0 <= i < h1.len() ==> eq_ignore_ascii_case(#[trigger] h1[i].0, h2[i].0),
    ensures
        (find_header(h1, name) is Some) == (find_header(h2, name) is Some),
        find_header(h1, name) is Some ==> exists|i: int|
            0 <= i < h1.len() && eq_ignore_ascii_case(#[trigger] h1[i].0, name) && find_header(
                h1,
                name,
            ) == Some(h1[i].1) && find_header(h2, name) == Some(h2[i].1),
    decreases h1.len(),
{
    if h1.len() > 0 {
        assert(eq_ignore_ascii_case(h1[0].0, h2[0].0));
        lemma_case_equal_laws(h1[0].0, h2[0].0, name);
        lemma_case_equal_laws(h2[0].0, h1[0].0, name);
        if !eq_ignore_ascii_case(h1[0].0, name) {
            let t1 = h1.drop_first();
            let t2 = h2.drop_first();
            assert forall|i: int| 0 <= i < t1.len() implies eq_ignore_ascii_case(
                #[trigger] t1[i].0,
                t2[i].0,
            ) by {
                assert(t1[i] == h1[i + 1]);
                assert(t2[i] == h2[i + 1]);
            }
            lemma_find_header_case(t1, t2, name);
            if find_header(h1, name) is Some {
                let i = choose|i: int|
                    0 <= i < t1.len() && eq_ignore_ascii_case(#[trigger] t1[i].0, name)
                        && find_header(t1, name) == Some(t1[i].1) && find_header(t2, name) == Some(
                        t2[i].1,
                    );
                assert(h1[i + 1] == t1[i]);
                assert(h2[i + 1] == t2[i]);
                assert(eq_ignore_ascii_case(h1[i + 1].0, name));
            }
        } else {
            assert(eq_ignore_ascii_case(h1[0].0, name));
        }
    }
}

/// The accept key ignores ASCII case where the handshake does: two requests
/// whose methods, header names, and header values other than the key's
/// differ only in ASCII case, with the same keys, are both upgrades or both
/// not, and carry the same key, so `websocket_accept_key` gives both the
/// same answer.
pub proof fn lemma_accept_key_ignores_case(r1: (Seq<char>, HeaderView), r2: (Seq<char>, HeaderView))
    requires
        eq_ignore_ascii_case(r1.0, r2.0),
        r1.1.len() == r2.1.len(),
        forall|i: int|
            0 <= i < r1.1.len() ==> eq_ignore_ascii_case(#[trigger] r1.1[i].0, r2.1[i].0),
        forall|i: int|
            0 <= i < r1.1.len() ==> if eq_ignore_ascii_case(r1.1[i].0, "Sec-WebSocket-Key"@) {
                #[trigger] r1.1[i].1 == r2.1[i].1
            } else {
                eq_ignore_ascii_case(r1.1[i].1, r2.1[i].1)
            },
    ensures
        is_websocket_upgrade(r1) == is_websocket_upgrade(r2),
        find_header(r1.1, "Sec-WebSocket-Key"@) == find_header(r2.1, "Sec-WebSocket-Key"@),
{
    reveal_strlit("Sec-WebSocket-Key");
    reveal_strlit("Upgrade");
    reveal_strlit("Connection");
    reveal_strlit("Sec-WebSocket-Version");
    lemma_case_equal_laws(r1.0, r2.0, "GET"@);
    lemma_case_equal_laws(r2.0, r1.0, "GET"@);
    lemma_find_header_case(r1.1, r2.1, "Sec-WebSocket-Key"@);
    if find_header(r1.1, "Sec-WebSocket-Key"@) is Some {
        let i = choose|i: int|
            0 <= i < r1.1.len() && eq_ignore_ascii_case(#[trigger] r1.1[i].0, "Sec-WebSocket-Key"@)
                && find_header(r1.1, "Sec-WebSocket-Key"@) == Some(r1.1[i].1) && find_header(
                r2.1,
                "Sec-WebSocket-Key"@,
            ) == Some(r2.1[i].1);
        assert(r1.1[i].1 == r2.1[i].1);
    }
    lemma_value_case(r1.1, r2.1, "Upgrade"@, "websocket"@);
    lemma_value_case(r1.1, r2.1, "Sec-WebSocket-Version"@, "13"@);
    lemma_find_header_case(r1.1, r2.1, "Connection"@);
    if find_header(r1.1, "Connection"@) is Some {
        let i = choose|i: int|
            0 <= i < r1.1.len() && eq_ignore_ascii_case(#[trigger] r1.1[i].0, "Connection"@)
                && find_header(r1.1, "Connection"@) == Some(r1.1[i].1) && find_header(
                r2.1,
                "Connection"@,
            ) == Some(r2.1[i].1);
        assert(!eq_ignore_ascii_case(r1.1[i].0, "Sec-WebSocket-Key"@)) by {
            lemma_case_equal_laws(r1.1[i].0, "Connection"@, "Sec-WebSocket-Key"@);
            lemma_case_equal_laws("Connection"@, r1.1[i].0, "Sec-WebSocket-Key"@);
            assert("Connection"@.len() != "Sec-WebSocket-Key"@.len());
        }
        assert(eq_ignore_ascii_case(r1.1[i].1, r2.1[i].1));
        lemma_token_in_list_case(r1.1[i].1, r2.1[i].1, "upgrade"@);
    }
}

/// A header other than the key whose value is compared up to case compares
/// alike in both lists.
proof fn lemma_value_case(h1: HeaderView, h2: HeaderView, name: Seq<char>, value: Seq<char>)
    requires
        h1.len() == h2.len(),
        name.len() != "Sec-WebSocket-Key"@.len(),
        forall|i: int| 0 <= i < h1.len() ==> eq_ignore_ascii_case(#[trigger] h1[i].0, h2[i].0),
        forall|i: int|
            0 <= i < h1.len() ==> if eq_ignore_ascii_case(h1[i].0, "Sec-WebSocket-Key"@) {
                #[trigger] h1[i].1 == h2[i].1
            } else {
                eq_ignore_ascii_case(h1[i].1, h2[i].1)
            },
    ensures
        (match find_header(h1, name) {
            Some(v) => eq_ignore_ascii_case(v, value),
            None => false,
        }) == (match find_header(h2, name) {
            Some(v) => eq_ignore_ascii_case(v, value),
            None => false,
        }),
{
    lemma_find_header_case(h1, h2, name);
    if find_header(h1, name) is Some {
        let i = choose|i: int|
            0 <= i < h1.len() && eq_ignore_ascii_case(#[trigger] h1[i].0, name) && find_header(
                h1,
                name,
            ) == Some(h1[i].1) && find_header(h2, name) == Some(h2[i].1);
        assert(h1[i].1 == h1[i].1);
        if eq_ignore_ascii_case(h1[i].0, "Sec-WebSocket-Key"@) {
            assert(h1[i].0.len() == name.len());
        }
        assert(eq_ignore_ascii_case(h1[i].1, h2[i].1));
        lemma_case_equal_laws(h1[i].1, h2[i].1, value);
        lemma_case_equal_laws(h2[i].1, h1[i].1, value);
    }
}

/// `v[i..j]` is one of the comma-separated pieces of `v`: it runs between
/// commas (or the ends of `v`) and holds no comma.
pub open spec fn is_piece(v: Seq<char>, i: int, j: int) -> bool {
    &&& 0 <= i <= j <= v.len()
    &&& (i == 0 || v[i - 1] == ',')
    &&& (j == v.len() || v[j] == ',')
    &&& forall|k: int| i <= k < j ==> v[k] != ','
}

/// A header value holds a token exactly when one of its comma-separated
/// pieces, trimmed, equals the token up to ASCII case.
pub proof fn lemma_token_in_list_pieces(v: Seq<char>, token: Seq<char>)
    ensures
        token_in_list(v, token) <==> exists|i: int, j: int|
            #[trigger] is_piece(v, i, j) && eq_ignore_ascii_case(trim(v.subrange(i, j)), token),
    decreases v.len(),
{
    lemma_index_of_first(v, ',');
    let e = index_of(v, ',');
    let n = v.len() as int;
    if e >= n {
        assert(is_piece(v, 0, n));
        assert(v.subrange(0, n) =~= v);
        if exists|i: int, j: int|
            #[trigger] is_piece(v, i, j) && eq_ignore_ascii_case(trim(v.subrange(i, j)), token) {
            let (i, j) = choose|i: int, j: int|
                #[trigger] is_piece(v, i, j) && eq_ignore_ascii_case(trim(v.subrange(i, j)), token);
            if i > 0 {
                assert(v[i - 1] != ',');
            }
            if j < n {
                assert(v[j] != ',');
            }
        }
    } else {
        let rest = v.subrange(e + 1, n);
        lemma_token_in_list_pieces(rest, token);
        if eq_ignore_ascii_case(trim(v.subrange(0, e)), token) {
            assert(is_piece(v, 0, e));
        }
        if token_in_list(rest, token) {
            let (i, j) = choose|i: int, j: int|
                #[trigger] is_piece(rest, i, j) && eq_ignore_ascii_case(
                    trim(rest.subrange(i, j)),
                    token,
                );
            assert(rest.subrange(i, j) =~= v.subrange(i + e + 1, j + e + 1));
            if i > 0 {
                assert(v[i + e] == rest[i - 1]);
            }
            if j < rest.len() {
                assert(v[j + e + 1] == rest[j]);
            }
            assert forall|k: int| i + e + 1 <= k < j + e + 1 implies v[k] != ',' by {
                assert(v[k] == rest[k - e - 1]);
            }
            assert(is_piece(v, i + e + 1, j + e + 1));
        }
        if exists|i: int, j: int|
            #[trigger] is_piece(v, i, j) && eq_ignore_ascii_case(trim(v.subrange(i, j)), token) {
            let (i, j) = choose|i: int, j: int|
                #[trigger] is_piece(v, i, j) && eq_ignore_ascii_case(trim(v.subrange(i, j)), token);
            if i == 0 {
                if j > e {
                    assert(v[e] != ',');
                }
                if j < e {
                    assert(v[j] == ',');
                }
                assert(j == e);
            } else {
                assert(v[i - 1] == ',');
                if i - 1 < e {
                    assert(v[i - 1] != ',');
                }
                let i2 = i - e - 1;
                let j2 = j - e - 1;
                assert(rest.subrange(i2, j2) =~= v.subrange(i, j));
                if i2 > 0 {
                    assert(rest[i2 - 1] == v[i - 1]);
                }
                if j2 < rest.len() {
                    assert(rest[j2] == v[j]);
                }
                assert forall|k: int| i2 <= k < j2 implies rest[k] != ',' by {
                    assert(rest[k] == v[k + e + 1]);
                }
                assert(is_piece(rest, i2, j2));
            }
        }
    }
}

/// `h` is `line` split at its first `':'`: the trimmed text before it and
/// the trimmed text after it.
pub open spec fn splits_at_first_colon(line: Seq<char>, h: (Seq<char>, Seq<char>)) -> bool {
    exists|k: int|
        0 <= k < line.len() && #[trigger] line[k] == ':' && (forall|j: int|
            0 <= j < k ==> line[j] != ':') && h == (
            trim(line.subrange(0, k)),
            trim(line.subrange(k + 1, line.len() as int)),
        )
}

/// Each header comes from one line, split at that line's first `':'`, so a
/// header name never holds `':'` and a value may (a port, a URL).
pub proof fn lemma_header_lines_split(ls: Seq<Seq<char>>)
    ensures
        parse_header_lines(ls) matches Ok(h) ==> h.len() <= ls.len() && forall|i: int|
            0 <= i < h.len() ==> splits_at_first_colon(trim_end_cr(ls[i]), #[trigger] h[i])
                && !h[i].0.contains(':'),
    decreases ls.len(),
{
    if ls.len() > 0 {
        let l = trim_end_cr(ls[0]);
        lemma_index_of_first(l, ':');
        let k = index_of(l, ':');
        if l.len() > 0 && k < l.len() {
            lemma_header_lines_split(ls.drop_first());
            if let Ok(h) = parse_header_lines(ls) {
                let rest = parse_header_lines(ls.drop_first())->Ok_0;
                assert(h == seq![(trim(l.subrange(0, k)), trim(l.subrange(k + 1, l.len() as int)))]
                    + rest);
                assert(l[k] == ':');
                assert(splits_at_first_colon(l, h[0]));
                assert(!l.subrange(0, k).contains(':')) by {
                    assert forall|j: int| 0 <= j < k implies l.subrange(0, k)[j] != ':' by {
                        assert(l.subrange(0, k)[j] == l[j]);
                    }
                }
                lemma_trim_lacks(l.subrange(0, k), ':');
                assert forall|i: int| 0 <= i < h.len() implies splits_at_first_colon(
                    trim_end_cr(ls[i]),
                    #[trigger] h[i],
                ) && !h[i].0.contains(':') by {
                    if i > 0 {
                        assert(h[i] == rest[i - 1]);
                        assert(ls[i] == ls.drop_first()[i - 1]);
                    }
                }
            }
        }
    }
}

/// In a parsed request, header `i` comes from line `i + 1` of the head (the
/// line after the request line), split at that line's first `':'`; no
/// header name holds `':'`.
pub proof fn lemma_request_headers_split(text: Seq<char>)
    ensures
        spec_parse_request(text) matches Ok((m, h)) ==> forall|i: int|
            0 <= i < h.len() ==> i + 1 < lines(text).len() && splits_at_first_colon(
                trim_end_cr(lines(text)[i + 1]),
                #[trigger] h[i],
            ) && !h[i].0.contains(':'),
{
    let ls = lines(text);
    if ls.len() > 0 {
        lemma_header_lines_split(ls.drop_first());
        if let Ok((m, h)) = spec_parse_request(text) {
            assert forall|i: int| 0 <= i < h.len() implies i + 1 < lines(text).len()
                && splits_at_first_colon(trim_end_cr(lines(text)[i + 1]), #[trigger] h[i])
                && !h[i].0.contains(':') by {
                assert(ls.drop_first()[i] == ls[i + 1]);
            }
        }
    }
}

} // verus!
