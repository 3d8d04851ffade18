//! The HTTP side of the embedded `fetch`: header maps, the request text
//! written to the socket, and the parsing of the response read back.
use crate::engine::js::{parse_fetch_url, parse_url, u16_text, FetchUrlV, UrlParse};
use crate::text::{
    chars_of, copy_string, dec_text, eq_ignore_ascii_case, eq_ignore_case, find_char, index_of_char,
    lines_of, lower_seq, lower_string, push_char, push_str, split_lines, str_lt, string_from_range,
    string_lt, trim, trim_text, upper_seq, usize_text,
};
use vstd::prelude::*;
use vstd::utf8::{decode_utf8, encode_utf8, valid_utf8};

verus! {

// ---------------------------------------------------------------------------
// Header maps
// ---------------------------------------------------------------------------

/// Header names and values, kept in ascending name order as a sorted map keeps them.
pub type HeadersV = Seq<(Seq<char>, Seq<char>)>;

pub open spec fn headers_v(hs: Seq<(String, String)>) -> HeadersV {
    Seq::new(hs.len(), |i: int| (hs[i].0@, hs[i].1@))
}

/// Index of the first header named `k`.
pub open spec fn hdr_find(hs: HeadersV, k: Seq<char>) -> Option<nat>
    decreases hs.len(),
{
    if hs.len() == 0 {
        None
    } else if hs[0].0 == k {
        Some(0)
    } else {
        match hdr_find(hs.drop_first(), k) {
            Some(i) => Some(i + 1),
            None => None,
        }
    }
}

/// Where a new name `k` goes: before the first greater name.
pub open spec fn hdr_pos(hs: HeadersV, k: Seq<char>) -> nat
    decreases hs.len(),
{
    if hs.len() == 0 || str_lt(k, hs[0].0) {
        0
    } else {
        1 + hdr_pos(hs.drop_first(), k)
    }
}

/// `entry(k).or_insert(v)`: a header that is present stays.
pub open spec fn hdr_default(hs: HeadersV, k: Seq<char>, v: Seq<char>) -> HeadersV {
    match hdr_find(hs, k) {
        Some(_) => hs,
        None => hs.insert(hdr_pos(hs, k) as int, (k, v)),
    }
}

/// `insert(k, v)`: a present header takes the new value.
pub open spec fn hdr_put(hs: HeadersV, k: Seq<char>, v: Seq<char>) -> HeadersV {
    match hdr_find(hs, k) {
        Some(i) => hs.update(i as int, (k, v)),
        None => hs.insert(hdr_pos(hs, k) as int, (k, v)),
    }
}

proof fn lemma_hdr_find(hs: HeadersV, k: Seq<char>, n: int)
    requires
        0 <= n <= hs.len(),
        forall|j: int| 0 <= j < n ==> hs[j].0 != k,
    ensures
        n < hs.len() && hs[n].0 == k ==> hdr_find(hs, k) == Some(n as nat),
        n == hs.len() ==> hdr_find(hs, k) is None,
    decreases n,
{
    if n > 0 {
        lemma_hdr_find(hs.drop_first(), k, n - 1);
    }
}

proof fn lemma_hdr_pos(hs: HeadersV, k: Seq<char>, n: int)
    requires
        0 <= n <= hs.len(),
        forall|j: int| 0 <= j < n ==> !str_lt(k, #[trigger] hs[j].0),
        n == hs.len() || str_lt(k, hs[n].0),
    ensures
        hdr_pos(hs, k) == n,
    decreases n,
{
    if n > 0 {
        lemma_hdr_pos(hs.drop_first(), k, n - 1);
    }
}

fn header_index(hs: &Vec<(String, String)>, k: &str) -> (r: Option<usize>)
    ensures
        r matches Some(i) ==> hdr_find(headers_v(hs@), k@) == Some(i as nat) && i < hs@.len(),
        r is None ==> hdr_find(headers_v(hs@), k@) is None,
{
    let ghost v = headers_v(hs@);
    let mut i: usize = 0;
    while i < hs.len()
        invariant
            0 <= i <= hs.len(),
            v == headers_v(hs@),
            forall|j: int| 0 <= j < i ==> v[j].0 != k@,
        decreases hs.len() - i,
    {
        if crate::text::str_eq(hs[i].0.as_str(), k) {
            proof {
                lemma_hdr_find(v, k@, i as int);
            }
            return Some(i);
        }
        i = i + 1;
    }
    proof {
        lemma_hdr_find(v, k@, i as int);
    }
    None
}

fn header_pos(hs: &Vec<(String, String)>, k: &str) -> (r: usize)
    ensures
        r == hdr_pos(headers_v(hs@), k@),
        r <= hs@.len(),
{
    let ghost v = headers_v(hs@);
    let kc = chars_of(k);
    let mut p: usize = 0;
    while p < hs.len() && !string_lt(&kc, &chars_of(hs[p].0.as_str()))
        invariant
            0 <= p <= hs.len(),
            v == headers_v(hs@),
            kc@ == k@,
            forall|j: int| 0 <= j < p ==> !str_lt(k@, #[trigger] v[j].0),
        decreases hs.len() - p,
    {
        p = p + 1;
    }
    proof {
        lemma_hdr_pos(v, k@, p as int);
    }
    p
}

/// Adds `k: v` unless a header `k` is present.
pub fn header_default(hs: &mut Vec<(String, String)>, k: &str, v: &str)
    ensures
        headers_v(final(hs)@) == hdr_default(headers_v(old(hs)@), k@, v@),
{
    let ghost before = headers_v(hs@);
    match header_index(hs, k) {
        Some(_) => {},
        None => {
            let p = header_pos(hs, k);
            hs.insert(p, (copy_string(k), copy_string(v)));
            assert(headers_v(hs@) =~= before.insert(p as int, (k@, v@)));
        },
    }
}

/// Sets header `k` to `v`.
pub fn header_put(hs: &mut Vec<(String, String)>, k: String, v: String)
    ensures
        headers_v(final(hs)@) == hdr_put(headers_v(old(hs)@), k@, v@),
{
    let ghost before = headers_v(hs@);
    match header_index(hs, k.as_str()) {
        Some(i) => {
            let ghost kv = (k@, v@);
            hs.set(i, (k, v));
            assert(headers_v(hs@) =~= before.update(i as int, kv));
        },
        None => {
            let p = header_pos(hs, k.as_str());
            let ghost kv = (k@, v@);
            hs.insert(p, (k, v));
            assert(headers_v(hs@) =~= before.insert(p as int, kv));
        },
    }
}

// ---------------------------------------------------------------------------
// Requests
// ---------------------------------------------------------------------------

/// A request handed to the embedded `fetch`.
pub struct FetchRequest {
    pub url: String,
    pub method: String,
    pub headers: Vec<(String, String)>,
    pub body: Option<String>,
}

/// The method a request without one uses.
pub fn default_fetch_method() -> (r: String)
    ensures
        r@ == "GET"@,
{
    copy_string("GET")
}

/// Where to connect and what to send.
pub struct FetchPlan {
    pub host: String,
    pub port: u16,
    pub method: String,
    pub raw_request: String,
}

/// The header block: one `name: value\r\n` line per header, in order.
pub open spec fn header_block(hs: HeadersV) -> Seq<char>
    decreases hs.len(),
{
    if hs.len() == 0 {
        seq![]
    } else {
        header_block(hs.drop_last()) + hs.last().0 + ": "@ + hs.last().1 + "\r\n"@
    }
}

/// The headers sent: the request's own, then `host`, `connection: close`
/// and, for a body, `content-length` where the request has none of them.
pub open spec fn sent_headers(hs: HeadersV, authority: Seq<char>, body: Seq<char>) -> HeadersV {
    let h1 = hdr_default(hs, "host"@, authority);
    let h2 = hdr_default(h1, "connection"@, "close"@);
    if body.len() > 0 {
        hdr_default(h2, "content-length"@, dec_text(encode_utf8(body).len()))
    } else {
        h2
    }
}

/// The request text: request line, headers, blank line, body.
pub open spec fn request_text(method: Seq<char>, pq: Seq<char>, hs: HeadersV, body: Seq<char>) -> Seq<char> {
    method + " "@ + pq + " HTTP/1.1\r\n"@ + header_block(hs) + "\r\n"@ + body
}

/// What preparing a fetch comes to.
pub enum FetchPrep {
    Plan { host: Seq<char>, port: int, method: Seq<char>, raw: Seq<char> },
    Failed(Seq<char>),
    BadPort(Seq<char>),
}

/// The checks and the request text of a fetch; only plain `http` is served.
pub open spec fn prepare_spec(url: Seq<char>, method: Seq<char>, hs: HeadersV, body: Option<Seq<char>>) -> FetchPrep {
    if trim(url).len() == 0 {
        FetchPrep::Failed("fetch request url is empty"@)
    } else {
        match parse_url(url) {
            UrlParse::Failed(m) => FetchPrep::Failed(m),
            UrlParse::BadPort(p) => FetchPrep::BadPort(p),
            UrlParse::Parsed(u) => if u.scheme != "http"@ {
                FetchPrep::Failed(
                    "fetch only supports http:// urls in the embedded override engine: "@ + url,
                )
            } else {
                let m = upper_seq(trim(method));
                let b = match body {
                    Some(x) => x,
                    None => seq![],
                };
                FetchPrep::Plan {
                    host: u.host,
                    port: u.port,
                    method: m,
                    raw: request_text(m, u.path_and_query, sent_headers(hs, u.authority, b), b),
                }
            },
        }
    }
}

fn upper_string(s: &str) -> (r: String)
    ensures
        r@ == upper_seq(s@),
{
    let v = chars_of(s);
    let mut r = String::new();
    let mut i: usize = 0;
    while i < v.len()
        invariant
            0 <= i <= v.len(),
            v@ == s@,
            r@ == upper_seq(v@.take(i as int)),
        decreases v.len() - i,
    {
        let c = v[i];
        let u = if 'a' <= c && c <= 'z' {
            ((c as u8) - 32) as char
        } else {
            c
        };
        push_char(&mut r, u);
        i = i + 1;
        assert(r@ =~= upper_seq(v@.take(i as int)));
    }
    assert(v@.take(v@.len() as int) =~= v@);
    r
}

fn header_text(hs: &Vec<(String, String)>) -> (r: String)
    ensures
        r@ == header_block(headers_v(hs@)),
{
    let ghost v = headers_v(hs@);
    let mut r = String::new();
    let mut i: usize = 0;
    assert(v.take(0) =~= Seq::<(Seq<char>, Seq<char>)>::empty());
    while i < hs.len()
        invariant
            0 <= i <= hs.len(),
            v == headers_v(hs@),
            r@ == header_block(v.take(i as int)),
        decreases hs.len() - i,
    {
        push_str(&mut r, hs[i].0.as_str());
        push_str(&mut r, ": ");
        push_str(&mut r, hs[i].1.as_str());
        push_str(&mut r, "\r\n");
        proof {
            assert(v.take(i + 1).drop_last() =~= v.take(i as int));
        }
        i = i + 1;
    }
    assert(v.take(hs@.len() as int) =~= v);
    r
}

/// Checks a fetch request and writes the text to send.
pub fn prepare_fetch(request: &FetchRequest) -> (r: Result<FetchPlan, String>)
    ensures
        match prepare_spec(
            request.url@,
            request.method@,
            headers_v(request.headers@),
            match request.body {
                Some(b) => Some(b@),
                None => None,
            },
        ) {
            FetchPrep::Plan { host, port, method, raw } => r matches Ok(p) && p.host@ == host
                && p.port == port && p.method@ == method && p.raw_request@ == raw,
            FetchPrep::Failed(m) => r matches Err(e) && e@ == m,
            FetchPrep::BadPort(p) => r matches Err(e) && ("invalid fetch port "@ + p + ": "@).is_prefix_of(e@),
        },
{
    let t = trim_text(request.url.as_str());
    if t.as_str().is_empty() {
        return Err(copy_string("fetch request url is empty"));
    }
    let url = parse_fetch_url(request.url.as_str())?;
    if !crate::text::str_eq(url.scheme.as_str(), "http") {
        return Err(crate::text::concat2(
            "fetch only supports http:// urls in the embedded override engine: ",
            request.url.as_str(),
        ));
    }
    let method = upper_string(trim_text(request.method.as_str()).as_str());
    let body = match &request.body {
        Some(b) => copy_string(b.as_str()),
        None => String::new(),
    };
    let mut headers: Vec<(String, String)> = Vec::new();
    let mut i: usize = 0;
    while i < request.headers.len()
        invariant
            0 <= i <= request.headers.len(),
            headers@.len() == i,
            forall|j: int| 0 <= j < i ==> #[trigger] headers@[j].0@ == request.headers@[j].0@ && headers@[j].1@ == request.headers@[j].1@,
        decreases request.headers.len() - i,
    {
        headers.push((copy_string(request.headers[i].0.as_str()), copy_string(request.headers[i].1.as_str())));
        i = i + 1;
    }
    assert(headers_v(headers@) =~= headers_v(request.headers@));
    header_default(&mut headers, "host", url.authority.as_str());
    header_default(&mut headers, "connection", "close");
    if !body.as_str().is_empty() {
        let bytes = body.as_str().as_bytes();
        assert(bytes@ == encode_utf8(body@));
        let n = bytes.len();
        let len_text = usize_text(n);
        header_default(&mut headers, "content-length", len_text.as_str());
    }
    let mut raw = copy_string(method.as_str());
    push_str(&mut raw, " ");
    push_str(&mut raw, url.path_and_query.as_str());
    push_str(&mut raw, " HTTP/1.1\r\n");
    let block = header_text(&headers);
    push_str(&mut raw, block.as_str());
    push_str(&mut raw, "\r\n");
    push_str(&mut raw, body.as_str());
    Ok(FetchPlan { host: url.host, port: url.port, method, raw_request: raw })
}


// ---------------------------------------------------------------------------
// Byte search
// ---------------------------------------------------------------------------

/// Index of the first occurrence of `p` in `s`.
pub open spec fn find_seq(s: Seq<u8>, p: Seq<u8>) -> Option<nat>
    decreases s.len(),
{
    if s.len() < p.len() {
        None
    } else if s.take(p.len() as int) == p {
        Some(0)
    } else if s.len() == 0 {
        None
    } else {
        match find_seq(s.drop_first(), p) {
            Some(i) => Some(i + 1),
            None => None,
        }
    }
}

proof fn lemma_find_seq(s: Seq<u8>, p: Seq<u8>, k: int)
    requires
        0 <= k,
        k + p.len() <= s.len(),
        forall|j: int| 0 <= j < k ==> #[trigger] s.subrange(j, j + p.len()) != p,
        s.subrange(k, k + p.len()) == p,
    ensures
        find_seq(s, p) == Some(k as nat),
    decreases k,
{
    assert(s.take(p.len() as int) =~= s.subrange(0int, 0int + p.len()));
    if k > 0 {
        assert forall|j: int| 0 <= j < k - 1 implies #[trigger] s.drop_first().subrange(j, j + p.len()) != p by {
            assert(s.drop_first().subrange(j, j + p.len()) =~= s.subrange(j + 1, j + 1 + p.len()));
        }
        assert(s.drop_first().subrange(k - 1, k - 1 + p.len()) =~= s.subrange(k, k + p.len()));
        lemma_find_seq(s.drop_first(), p, k - 1);
    }
}

proof fn lemma_find_seq_none(s: Seq<u8>, p: Seq<u8>)
    requires
        forall|j: int| 0 <= j && j + p.len() <= s.len() ==> #[trigger] s.subrange(j, j + p.len()) != p,
    ensures
        find_seq(s, p) is None,
    decreases s.len(),
{
    if s.len() >= p.len() {
        assert(s.take(p.len() as int) =~= s.subrange(0int, 0int + p.len()));
        if s.len() > 0 {
            assert forall|j: int| 0 <= j && j + p.len() <= s.drop_first().len() implies #[trigger] s.drop_first().subrange(j, j + p.len()) != p by {
                assert(s.drop_first().subrange(j, j + p.len()) =~= s.subrange(j + 1, j + 1 + p.len()));
            }
            lemma_find_seq_none(s.drop_first(), p);
        }
    }
}

fn bytes_eq_at(v: &[u8], at: usize, p: &[u8]) -> (r: bool)
    requires
        at + p@.len() <= v@.len(),
    ensures
        r == (v@.subrange(at as int, at + p@.len()) == p@),
{
    let mut i: usize = 0;
    assert(p@.len() == p.len());
    while i < p.len()
        invariant
            0 <= i <= p.len(),
            p@.len() == p.len(),
            v@.len() == v.len(),
            at + p@.len() <= v@.len(),
            forall|j: int| 0 <= j < i ==> v@[at + j] == p@[j],
        decreases p.len() - i,
    {
        if v[at + i] != p[i] {
            assert(v@.subrange(at as int, at + p@.len())[i as int] != p@[i as int]);
            return false;
        }
        i = i + 1;
    }
    assert(v@.subrange(at as int, at + p@.len()) =~= p@);
    true
}

/// The first index at or after `lo` where `p` occurs in `v`.
fn index_of_bytes(v: &[u8], lo: usize, p: &[u8]) -> (r: Option<usize>)
    requires
        lo <= v@.len(),
    ensures
        r matches Some(i) ==> lo <= i && i + p@.len() <= v@.len() && find_seq(v@.skip(lo as int), p@) == Some((i - lo) as nat),
        r is None ==> find_seq(v@.skip(lo as int), p@) is None,
{
    let ghost s = v@.skip(lo as int);
    if p.len() > v.len() - lo {
        return None;
    }
    let last = v.len() - p.len();
    let mut i: usize = lo;
    loop
        invariant
            lo <= i <= last,
            last == v@.len() - p@.len(),
            s == v@.skip(lo as int),
            forall|j: int| 0 <= j < i - lo ==> #[trigger] s.subrange(j, j + p@.len()) != p@,
        decreases last - i,
    {
        if bytes_eq_at(v, i, p) {
            proof {
                assert(s.subrange(i - lo, i - lo + p@.len()) =~= v@.subrange(i as int, i + p@.len()));
                lemma_find_seq(s, p@, i - lo);
            }
            return Some(i);
        }
        proof {
            assert(s.subrange(i - lo, i - lo + p@.len()) =~= v@.subrange(i as int, i + p@.len()));
        }
        if i == last {
            proof {
                lemma_find_seq_none(s, p@);
            }
            return None;
        }
        i = i + 1;
    }
}

fn bytes_range(v: &[u8], lo: usize, hi: usize) -> (r: Vec<u8>)
    requires
        lo <= hi <= v@.len(),
    ensures
        r@ == v@.subrange(lo as int, hi as int),
{
    let mut out: Vec<u8> = Vec::new();
    let mut i = lo;
    while i < hi
        invariant
            lo <= i <= hi <= v@.len(),
            out@ == v@.subrange(lo as int, i as int),
        decreases hi - i,
    {
        out.push(v[i]);
        i = i + 1;
        assert(out@ =~= v@.subrange(lo as int, i as int));
    }
    out
}

// ---------------------------------------------------------------------------
// Responses
// ---------------------------------------------------------------------------

/// The text `String::from_utf8_lossy` makes of `bytes`.
pub uninterp spec fn utf8_lossy(bytes: Seq<u8>) -> Seq<char>;

/// The text of `bytes` read leniently: the decoded text of valid UTF-8,
/// otherwise what `String::from_utf8_lossy` makes of them.
pub open spec fn lossy_utf8(bytes: Seq<u8>) -> Seq<char> {
    if valid_utf8(bytes) {
        decode_utf8(bytes)
    } else {
        utf8_lossy(bytes)
    }
}

/// Calls `String::from_utf8_lossy`. Trusted: the result is named
/// [`utf8_lossy`]; on valid UTF-8 it is the decoded text, as std documents.
#[verifier::external_body]
fn lossy_text(bytes: &[u8]) -> (r: String)
    ensures
        r@ == utf8_lossy(bytes@),
        valid_utf8(bytes@) ==> r@ == decode_utf8(bytes@),
{
    String::from_utf8_lossy(bytes).into_owned()
}

pub open spec fn is_hex_digit(c: char) -> bool {
    ('0' <= c <= '9') || ('a' <= c <= 'f') || ('A' <= c <= 'F')
}

pub open spec fn hex_digit_value(c: char) -> int {
    if '0' <= c <= '9' {
        c as int - 48
    } else if 'a' <= c <= 'f' {
        c as int - 87
    } else {
        c as int - 55
    }
}

pub open spec fn hex_value(s: Seq<char>) -> int
    decreases s.len(),
{
    if s.len() == 0 {
        0
    } else {
        hex_value(s.drop_last()) * 16 + hex_digit_value(s.last())
    }
}

/// `usize::from_str_radix(s, 16)`: an optional `+`, then one or more hex
/// digits of either case, of value at most `usize::MAX`.
pub open spec fn hex_text(s: Seq<char>) -> Option<int> {
    let d = if s.len() > 0 && s[0] == '+' {
        s.drop_first()
    } else {
        s
    };
    if d.len() > 0 && (forall|i: int| 0 <= i < d.len() ==> is_hex_digit(#[trigger] d[i])) && hex_value(d)
        <= usize::MAX {
        Some(hex_value(d))
    } else {
        None
    }
}

/// Calls `usize::from_str_radix` with radix 16. Trusted: it succeeds exactly
/// when [`hex_text`] accepts the text, with that value; the error's text is
/// std's and is not stated.
#[verifier::external_body]
fn parse_hex_usize(s: &str) -> (r: Result<usize, String>)
    ensures
        r matches Ok(n) ==> hex_text(s@) == Some(n as int),
        r is Err ==> hex_text(s@) is None,
{
    usize::from_str_radix(s, 16).map_err(|err| err.to_string())
}

/// What decoding a chunked body comes to.
pub enum ChunkParse {
    Done(Seq<u8>),
    Failed(Seq<char>),
    BadSize(Seq<char>),
}

pub open spec fn crlf() -> Seq<u8> {
    seq![13u8, 10u8]
}

/// The chunked body `b` decoded from `cur` on: size line, chunk, CRLF, until
/// a zero size or the end of the bytes.
pub open spec fn chunked_from(b: Seq<u8>, cur: nat) -> ChunkParse
    decreases b.len() - cur,
{
    if cur >= b.len() {
        ChunkParse::Done(seq![])
    } else {
        match find_seq(b.skip(cur as int), crlf()) {
            None => ChunkParse::Failed("invalid chunked response: missing chunk size terminator"@),
            Some(k) => {
                let se = cur + k;
                let st = trim(lossy_utf8(b.subrange(cur as int, se as int)));
                match hex_text(st) {
                    None => ChunkParse::BadSize(st),
                    Some(n) => {
                        let c2 = se + 2;
                        if n <= 0 {
                            ChunkParse::Done(seq![])
                        } else if n > b.len() - c2 {
                            ChunkParse::Failed("invalid chunked response: chunk exceeds body length"@)
                        } else {
                            let chunk = b.subrange(c2 as int, c2 + n);
                            let next = (c2 + n + 2) as nat;
                            if next < b.len() {
                                match chunked_from(b, next) {
                                    ChunkParse::Done(rest) => ChunkParse::Done(chunk + rest),
                                    other => other,
                                }
                            } else {
                                ChunkParse::Done(chunk)
                            }
                        }
                    },
                }
            },
        }
    }
}

fn crlf_bytes() -> (r: Vec<u8>)
    ensures
        r@ == crlf(),
{
    let mut v: Vec<u8> = Vec::new();
    v.push(13);
    v.push(10);
    assert(v@ =~= crlf());
    v
}

/// Decodes a `Transfer-Encoding: chunked` body.
pub fn decode_chunked_body(body_bytes: &[u8]) -> (r: Result<Vec<u8>, String>)
    ensures
        match chunked_from(body_bytes@, 0) {
            ChunkParse::Done(x) => r matches Ok(v) && v@ == x,
            ChunkParse::Failed(m) => r matches Err(e) && e@ == m,
            ChunkParse::BadSize(_) => r matches Err(e) && ("invalid chunk size: "@).is_prefix_of(e@),
        },
{
    let sep = crlf_bytes();
    let ghost b = body_bytes@;
    let mut decoded: Vec<u8> = Vec::new();
    let mut cursor: usize = 0;
    while cursor < body_bytes.len()
        invariant
            b == body_bytes@,
            sep@ == crlf(),
            cursor <= b.len(),
            cursor < b.len() ==> chunked_from(b, 0) == match chunked_from(b, cursor as nat) {
                ChunkParse::Done(rest) => ChunkParse::Done(decoded@ + rest),
                other => other,
            },
            cursor >= b.len() ==> chunked_from(b, 0) == ChunkParse::Done(decoded@),
        decreases b.len() - cursor,
    {
        let size_end = match index_of_bytes(body_bytes, cursor, sep.as_slice()) {
            Some(i) => i,
            None => {
                return Err(copy_string("invalid chunked response: missing chunk size terminator"));
            },
        };
        let size_raw = bytes_range(body_bytes, cursor, size_end);
        let size_text = lossy_text(size_raw.as_slice());
        let size_trim = trim_text(size_text.as_str());
        let chunk_size = match parse_hex_usize(size_trim.as_str()) {
            Ok(n) => n,
            Err(e) => {
                let mut m = copy_string("invalid chunk size: ");
                let ghost head = m@;
                push_str(&mut m, e.as_str());
                assert(m@.take(head.len() as int) =~= head);
                return Err(m);
            },
        };
        let c2 = size_end + 2;
        if chunk_size == 0 {
            assert(decoded@ + Seq::<u8>::empty() =~= decoded@);
            return Ok(decoded);
        }
        if chunk_size > body_bytes.len() - c2 {
            return Err(copy_string("invalid chunked response: chunk exceeds body length"));
        }
        let ghost before = decoded@;
        let chunk_end = c2 + chunk_size;
        let mut j = c2;
        while j < chunk_end
            invariant
                c2 <= j <= chunk_end <= body_bytes@.len(),
                decoded@ == before + body_bytes@.subrange(c2 as int, j as int),
            decreases chunk_end - j,
        {
            decoded.push(body_bytes[j]);
            j = j + 1;
            assert(decoded@ =~= before + body_bytes@.subrange(c2 as int, j as int));
        }
        proof {
            let next = (c2 + chunk_size + 2) as nat;
            if next < b.len() {
                assert(before + b.subrange(c2 as int, c2 + chunk_size) + Seq::<u8>::empty() =~= decoded@);
                match chunked_from(b, next) {
                    ChunkParse::Done(rest) => {
                        assert(before + (b.subrange(c2 as int, c2 + chunk_size) + rest) =~= decoded@ + rest);
                    },
                    _ => {},
                }
            } else {
                assert(before + b.subrange(c2 as int, c2 + chunk_size) =~= decoded@);
            }
        }
        if body_bytes.len() - chunk_end <= 2 {
            cursor = body_bytes.len();
        } else {
            cursor = chunk_end + 2;
        }
    }
    Ok(decoded)
}


/// The status code text and the rest of a status line, split as
/// `splitn(3, ' ')` splits it; none when the line has no space.
pub open spec fn status_parts(line: Seq<char>) -> Option<(Seq<char>, Seq<char>)> {
    match find_char(line, ' ') {
        None => None,
        Some(f1) => {
            let r1 = line.skip((f1 + 1) as int);
            match find_char(r1, ' ') {
                Some(f2) => Some((r1.take(f2 as int), r1.skip((f2 + 1) as int))),
                None => Some((r1, seq![])),
            }
        },
    }
}

/// The headers of the lines `ls`, each `name: value` line taken in order;
/// names are trimmed and lowercased, values trimmed.
pub open spec fn header_fold(ls: Seq<Seq<char>>) -> HeadersV
    decreases ls.len(),
{
    if ls.len() == 0 {
        seq![]
    } else {
        let prev = header_fold(ls.drop_last());
        let l = ls.last();
        match find_char(l, ':') {
            Some(c) => hdr_put(prev, lower_seq(trim(l.take(c as int))), trim(l.skip((c + 1) as int))),
            None => prev,
        }
    }
}

/// What parsing a response comes to.
pub enum HttpParse {
    Parsed(int, Seq<char>, HeadersV, Seq<u8>),
    Failed(Seq<char>),
    BadStatus(Seq<char>),
    BadChunkSize(Seq<char>),
}

pub open spec fn crlf2() -> Seq<u8> {
    seq![13u8, 10u8, 13u8, 10u8]
}

pub open spec fn is_chunked(hs: HeadersV) -> bool {
    match hdr_find(hs, "transfer-encoding"@) {
        Some(i) => eq_ignore_case(hs[i as int].1, "chunked"@),
        None => false,
    }
}

/// A raw HTTP/1.1 response: status, status text, headers and (de-chunked) body.
pub open spec fn http_parse(b: Seq<u8>) -> HttpParse {
    match find_seq(b, crlf2()) {
        None => HttpParse::Failed("invalid HTTP response: missing header terminator"@),
        Some(he) => {
            let ls = lines_of(lossy_utf8(b.take(he as int)));
            if ls.len() == 0 {
                HttpParse::Failed("invalid HTTP response: missing status line"@)
            } else {
                match status_parts(ls[0]) {
                    None => HttpParse::Failed("invalid HTTP response: missing status code"@),
                    Some((code, rest)) => match u16_text(code) {
                        None => HttpParse::BadStatus(code),
                        Some(st) => {
                            let hs = header_fold(ls.skip(1));
                            let raw_body = b.skip((he + 4) as int);
                            if is_chunked(hs) {
                                match chunked_from(raw_body, 0) {
                                    ChunkParse::Done(x) => HttpParse::Parsed(st, trim(rest), hs, x),
                                    ChunkParse::Failed(m) => HttpParse::Failed(m),
                                    ChunkParse::BadSize(t) => HttpParse::BadChunkSize(t),
                                }
                            } else {
                                HttpParse::Parsed(st, trim(rest), hs, raw_body)
                            }
                        },
                    },
                }
            }
        },
    }
}

fn crlf2_bytes() -> (r: Vec<u8>)
    ensures
        r@ == crlf2(),
{
    let mut v: Vec<u8> = Vec::new();
    v.push(13);
    v.push(10);
    v.push(13);
    v.push(10);
    assert(v@ =~= crlf2());
    v
}

fn split_status_line(line: &Vec<char>) -> (r: Option<(String, String)>)
    ensures
        r matches Some(x) ==> status_parts(line@) == Some((x.0@, x.1@)),
        r is None ==> status_parts(line@) is None,
{
    let f1 = match index_of_char(line, ' ') {
        Some(i) => i,
        None => {
            return None;
        },
    };
    assert(line@.len() == line.len());
    let r1 = string_from_range(line, f1 + 1, line.len());
    let rv = chars_of(r1.as_str());
    assert(line@.skip(f1 + 1) =~= line@.subrange(f1 + 1, line@.len() as int));
    match index_of_char(&rv, ' ') {
        Some(f2) => {
            let code = string_from_range(&rv, 0, f2);
            let rest = string_from_range(&rv, f2 + 1, rv.len());
            assert(rv@.take(f2 as int) =~= rv@.subrange(0, f2 as int));
            assert(rv@.skip(f2 + 1) =~= rv@.subrange(f2 + 1, rv@.len() as int));
            Some((code, rest))
        },
        None => {
            proof {
                reveal_strlit("");
            }
            Some((r1, String::new()))
        },
    }
}

fn fold_header_line(hs: &mut Vec<(String, String)>, l: &Vec<char>)
    ensures
        headers_v(final(hs)@) == match find_char(l@, ':') {
            Some(c) => hdr_put(headers_v(old(hs)@), lower_seq(trim(l@.take(c as int))), trim(l@.skip((c + 1) as int))),
            None => headers_v(old(hs)@),
        },
{
    match index_of_char(l, ':') {
        Some(c) => {
            let name_raw = string_from_range(l, 0, c);
            let value_raw = string_from_range(l, c + 1, l.len());
            assert(l@.take(c as int) =~= l@.subrange(0, c as int));
            assert(l@.skip(c + 1) =~= l@.subrange(c + 1, l@.len() as int));
            let name = lower_string(trim_text(name_raw.as_str()).as_str());
            let value = trim_text(value_raw.as_str());
            header_put(hs, name, value);
        },
        None => {},
    }
}

fn chunked_flag(hs: &Vec<(String, String)>) -> (r: bool)
    ensures
        r == is_chunked(headers_v(hs@)),
{
    match header_index(hs, "transfer-encoding") {
        Some(i) => eq_ignore_ascii_case(hs[i].1.as_str(), "chunked"),
        None => false,
    }
}

/// Splits a raw HTTP/1.1 response into status, status text, headers and body.
pub fn parse_http_response(response_bytes: &[u8]) -> (r: Result<(u16, String, Vec<(String, String)>, Vec<u8>), String>)
    ensures
        match http_parse(response_bytes@) {
            HttpParse::Parsed(st, text, hs, body) => r matches Ok(x) && x.0 == st && x.1@ == text
                && headers_v(x.2@) == hs && x.3@ == body,
            HttpParse::Failed(m) => r matches Err(e) && e@ == m,
            HttpParse::BadStatus(_) => r matches Err(e) && ("invalid HTTP status code: "@).is_prefix_of(e@),
            HttpParse::BadChunkSize(_) => r matches Err(e) && ("invalid chunk size: "@).is_prefix_of(e@),
        },
{
    let sep = crlf2_bytes();
    assert(response_bytes@.skip(0) =~= response_bytes@);
    let sep_slice = sep.as_slice();
    assert(sep_slice@ == crlf2());
    let header_end = match index_of_bytes(response_bytes, 0, sep_slice) {
        Some(i) => i,
        None => {
            return Err(copy_string("invalid HTTP response: missing header terminator"));
        },
    };
    assert(header_end + 4 <= response_bytes@.len());
    assert(response_bytes@.len() == response_bytes.len());
    let body_start = header_end + 4;
    let header_bytes = bytes_range(response_bytes, 0, header_end);
    assert(response_bytes@.take(header_end as int) =~= response_bytes@.subrange(0, header_end as int));
    let header_text = lossy_text(header_bytes.as_slice());
    let hv = chars_of(header_text.as_str());
    let lines = split_lines(&hv);
    let ghost ls = lines_of(hv@);
    if lines.len() == 0 {
        return Err(copy_string("invalid HTTP response: missing status line"));
    }
    let (code, rest) = match split_status_line(&lines[0]) {
        Some(x) => x,
        None => {
            return Err(copy_string("invalid HTTP response: missing status code"));
        },
    };
    let status = match crate::engine::js::parse_status_u16(code.as_str()) {
        Ok(n) => n,
        Err(e) => {
            let mut m = copy_string("invalid HTTP status code: ");
            let ghost head = m@;
            push_str(&mut m, e.as_str());
            assert(m@.take(head.len() as int) =~= head);
            return Err(m);
        },
    };
    let status_text = trim_text(rest.as_str());
    let mut headers: Vec<(String, String)> = Vec::new();
    let mut i: usize = 1;
    proof {
        assert(ls.skip(1).take(0) =~= Seq::<Seq<char>>::empty());
        assert(headers_v(headers@) =~= Seq::<(Seq<char>, Seq<char>)>::empty());
    }
    while i < lines.len()
        invariant
            1 <= i <= lines.len(),
            lines@.len() == ls.len(),
            forall|x: int| 0 <= x < lines@.len() ==> #[trigger] lines@[x]@ == ls[x],
            headers_v(headers@) == header_fold(ls.skip(1).take(i - 1)),
        decreases lines.len() - i,
    {
        fold_header_line(&mut headers, &lines[i]);
        proof {
            let q = ls.skip(1).take(i as int);
            assert(q.drop_last() =~= ls.skip(1).take(i - 1));
            assert(q.last() == ls[i as int]);
        }
        i = i + 1;
    }
    assert(ls.skip(1).take(lines@.len() - 1) =~= ls.skip(1));
    let raw_body = bytes_range(response_bytes, body_start, response_bytes.len());
    assert(response_bytes@.skip(body_start as int) =~= response_bytes@.subrange(body_start as int, response_bytes@.len() as int));
    let body = if chunked_flag(&headers) {
        decode_chunked_body(raw_body.as_slice())?
    } else {
        raw_body
    };
    Ok((status, status_text, headers, body))
}

/// What the embedded `fetch` hands back to the script.
pub struct FetchResponsePayload {
    pub ok: bool,
    pub status: u16,
    pub status_text: String,
    pub url: String,
    pub headers: Vec<(String, String)>,
    pub body: String,
}

/// The payload of a parsed response: `ok` for a 2xx status, the body read as lossy UTF-8.
pub fn fetch_payload(
    url: String,
    status: u16,
    status_text: String,
    headers: Vec<(String, String)>,
    body: Vec<u8>,
) -> (r: FetchResponsePayload)
    ensures
        r.ok == (200 <= status <= 299),
        r.status == status,
        r.status_text@ == status_text@,
        r.url@ == url@,
        headers_v(r.headers@) == headers_v(headers@),
        r.body@ == lossy_utf8(body@),
{
    let text = lossy_text(body.as_slice());
    FetchResponsePayload {
        ok: 200 <= status && status <= 299,
        status,
        status_text,
        url,
        headers,
        body: text,
    }
}

} // verus!
