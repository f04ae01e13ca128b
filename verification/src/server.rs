//! भारत.सर्वर — what the HTTP server decides: the path a request line asks
//! for, its percent-decoding, the routes a server answers, and the response
//! text. Listening, reading and writing sockets stay with the caller, which
//! hands each request line here and sends back the text it gets.

use vstd::prelude::*;
use vstd::utf8::*;
use crate::name_table::{NameTable, lookup, sorted_insert, law_lookup_after_insert};
use crate::serializer::string_from_utf8;
use crate::text::{is_whitespace, is_whitespace_spec, str_chars, chars_to_string, push_str, decimal, decimal_spec};

verus! {

broadcast use {encode_utf8_valid_utf8, encode_utf8_decode_utf8};

// ── The path of a request line ───────────────────────────────────────────────

/// The first position from `i` on that is not whitespace.
pub open spec fn skip_ws(s: Seq<char>, i: int) -> int
    decreases s.len() - i,
{
    if 0 <= i < s.len() && is_whitespace_spec(s[i]) {
        skip_ws(s, i + 1)
    } else {
        i
    }
}

/// The first position from `i` on that is whitespace (or the end).
pub open spec fn token_end(s: Seq<char>, i: int) -> int
    decreases s.len() - i,
{
    if 0 <= i < s.len() && !is_whitespace_spec(s[i]) {
        token_end(s, i + 1)
    } else {
        i
    }
}

/// The second whitespace-separated word of a request line (`GET /path
/// HTTP/1.1`), or `/` when there is none.
pub open spec fn request_path_spec(s: Seq<char>) -> Seq<char> {
    let a = skip_ws(s, 0);
    let b = token_end(s, a);
    let c = skip_ws(s, b);
    if c < s.len() {
        s.subrange(c, token_end(s, c))
    } else {
        "/"@
    }
}

proof fn lemma_skip_ws(s: Seq<char>, i: int)
    requires
        0 <= i <= s.len(),
    ensures
        i <= skip_ws(s, i) <= s.len(),
    decreases s.len() - i,
{
    if i < s.len() && is_whitespace_spec(s[i]) {
        lemma_skip_ws(s, i + 1);
    }
}

proof fn lemma_token_end(s: Seq<char>, i: int)
    requires
        0 <= i <= s.len(),
    ensures
        i <= token_end(s, i) <= s.len(),
    decreases s.len() - i,
{
    if i < s.len() && !is_whitespace_spec(s[i]) {
        lemma_token_end(s, i + 1);
    }
}

fn skip_ws_at(s: &Vec<char>, i: usize) -> (r: usize)
    requires
        i <= s@.len(),
    ensures
        r == skip_ws(s@, i as int),
{
    let mut j = i;
    while j < s.len() && is_whitespace(s[j])
        invariant
            i <= j <= s@.len(),
            skip_ws(s@, j as int) == skip_ws(s@, i as int),
        decreases s@.len() - j,
    {
        j = j + 1;
    }
    j
}

fn token_end_at(s: &Vec<char>, i: usize) -> (r: usize)
    requires
        i <= s@.len(),
    ensures
        r == token_end(s@, i as int),
{
    let mut j = i;
    while j < s.len() && !is_whitespace(s[j])
        invariant
            i <= j <= s@.len(),
            token_end(s@, j as int) == token_end(s@, i as int),
        decreases s@.len() - j,
    {
        j = j + 1;
    }
    j
}

/// The path a request line asks for (see `request_path_spec`).
pub fn request_path(line: &str) -> (r: String)
    ensures
        r@ == request_path_spec(line@),
{
    let s = str_chars(line);
    let a = skip_ws_at(&s, 0);
    proof {
        lemma_skip_ws(s@, 0);
    }
    let b = token_end_at(&s, a);
    proof {
        lemma_token_end(s@, a as int);
    }
    let c = skip_ws_at(&s, b);
    proof {
        lemma_skip_ws(s@, b as int);
    }
    if c < s.len() {
        let d = token_end_at(&s, c);
        proof {
            lemma_token_end(s@, c as int);
        }
        let mut out = String::new();
        crate::text::push_chars(&mut out, s.as_slice(), c, d);
        assert(out@ =~= s@.subrange(c as int, d as int));
        out
    } else {
        "/".to_owned()
    }
}

// ── Percent-decoding ─────────────────────────────────────────────────────────

pub open spec fn is_hex_byte(b: u8) -> bool {
    (0x30 <= b <= 0x39) || (0x41 <= b <= 0x46) || (0x61 <= b <= 0x66)
}

pub open spec fn hex_value(b: u8) -> int {
    if 0x30 <= b <= 0x39 {
        b - 0x30
    } else if 0x41 <= b <= 0x46 {
        b - 0x41 + 10
    } else {
        b - 0x61 + 10
    }
}

/// The bytes from `i` on with every `%XX` (two hex digits, not at the very
/// end) replaced by the byte it names.
pub open spec fn pd_bytes(b: Seq<u8>, i: int) -> Seq<u8>
    decreases b.len() - i,
{
    if i < 0 || i >= b.len() {
        seq![]
    } else if b[i] == 0x25 && i + 2 < b.len() && is_hex_byte(b[i + 1]) && is_hex_byte(b[i + 2]) {
        seq![(hex_value(b[i + 1]) * 16 + hex_value(b[i + 2])) as u8] + pd_bytes(b, i + 3)
    } else {
        seq![b[i]] + pd_bytes(b, i + 1)
    }
}

/// A percent-decoded path: the decoded bytes as UTF-8 text, or the raw text
/// when they are not valid UTF-8. `+` stays as it is.
pub open spec fn percent_decode_spec(raw: Seq<char>) -> Seq<char> {
    let out = pd_bytes(encode_utf8(raw), 0);
    if valid_utf8(out) {
        decode_utf8(out)
    } else {
        raw
    }
}

fn hex_digit(b: u8) -> (r: Option<u32>)
    ensures
        is_hex_byte(b) ==> r == Some(hex_value(b) as u32),
        !is_hex_byte(b) ==> r is None,
{
    if 0x30 <= b && b <= 0x39 {
        Some((b - 0x30) as u32)
    } else if 0x41 <= b && b <= 0x46 {
        Some((b - 0x41 + 10) as u32)
    } else if 0x61 <= b && b <= 0x66 {
        Some((b - 0x61 + 10) as u32)
    } else {
        None
    }
}

/// Decodes `%XX` escapes (see `percent_decode_spec`).
pub fn percent_decode(raw: &str) -> (r: String)
    ensures
        r@ == percent_decode_spec(raw@),
{
    let bytes = raw.as_bytes();
    let ghost b = bytes@;
    let mut out: Vec<u8> = Vec::new();
    let mut i: usize = 0;
    assert(b == encode_utf8(raw@));
    while i < bytes.len()
        invariant
            b == bytes@,
            b.len() == bytes.len(),
            i <= b.len(),
            out@ + pd_bytes(b, i as int) == pd_bytes(b, 0),
        decreases b.len() - i,
    {
        let ghost before = out@;
        if bytes[i] == 0x25 && bytes.len() >= 3 && i < bytes.len() - 2 {
            let hi = hex_digit(bytes[i + 1]);
            let lo = hex_digit(bytes[i + 2]);
            match (hi, lo) {
                (Some(h), Some(l)) => {
                    out.push((h * 16 + l) as u8);
                    i = i + 3;
                    assert(before + (seq![(hex_value(b[i - 2]) * 16 + hex_value(b[i - 1])) as u8] + pd_bytes(b, i as int))
                        =~= out@ + pd_bytes(b, i as int));
                    continue;
                },
                _ => {},
            }
        }
        out.push(bytes[i]);
        i = i + 1;
        assert(before + (seq![b[i - 1]] + pd_bytes(b, i as int)) =~= out@ + pd_bytes(b, i as int));
    }
    assert(out@ + pd_bytes(b, i as int) =~= out@);
    match string_from_utf8(out) {
        Some(s) => s,
        None => raw.to_owned(),
    }
}

// ── Routes and responses ─────────────────────────────────────────────────────

/// An HTTP/1.1 response carrying `body` as HTML, its length in bytes.
pub open spec fn http_response(status: Seq<char>, body: Seq<char>) -> Seq<char> {
    "HTTP/1.1 "@ + status + "\r\nContent-Type: text/html; charset=utf-8\r\nContent-Length: "@ + decimal_spec(
        encode_utf8(body).len(),
    ) + "\r\nConnection: close\r\n\r\n"@ + body
}

pub open spec fn not_found_body() -> Seq<char> {
    "404 नहीं मिला"@
}

/// The answer to a request line: the page registered for its decoded path,
/// or 404.
pub open spec fn response_spec(routes: Seq<(Seq<char>, Seq<char>)>, line: Seq<char>) -> Seq<char> {
    match lookup(routes, percent_decode_spec(request_path_spec(line))) {
        Some(body) => http_response("200 OK"@, body),
        None => http_response("404 Not Found"@, not_found_body()),
    }
}

/// The pages a server answers, by path.
pub struct Routes {
    table: NameTable<String>,
}

impl View for Routes {
    type V = Seq<(Seq<char>, Seq<char>)>;

    closed spec fn view(&self) -> Seq<(Seq<char>, Seq<char>)> {
        self.table@
    }
}

fn response(status: &str, body: &str) -> (r: String)
    ensures
        r@ == http_response(status@, body@),
{
    let mut r = "HTTP/1.1 ".to_owned();
    push_str(&mut r, status);
    push_str(&mut r, "\r\nContent-Type: text/html; charset=utf-8\r\nContent-Length: ");
    let n = body.as_bytes().len();
    let d = decimal(n as u64);
    let ds = chars_to_string(d.as_slice());
    push_str(&mut r, ds.as_str());
    push_str(&mut r, "\r\nConnection: close\r\n\r\n");
    push_str(&mut r, body);
    r
}

impl Routes {
    /// No routes yet.
    pub fn new() -> (r: Routes)
        ensures
            r@ == Seq::<(Seq<char>, Seq<char>)>::empty(),
    {
        Routes { table: NameTable::new() }
    }

    /// सर्वर_मार्ग: serve `body` at `path` (replacing an earlier page there).
    pub fn route(&mut self, path: String, body: String)
        ensures
            final(self)@ == sorted_insert(old(self)@, path@, body@),
    {
        self.table.insert(path, body);
    }

    /// The response text to a request line (see `response_spec`).
    pub fn respond(&self, request_line: &str) -> (r: String)
        ensures
            r@ == response_spec(self@, request_line@),
    {
        let raw = request_path(request_line);
        let path = percent_decode(raw.as_str());
        match self.table.get(path.as_str()) {
            Some(body) => response("200 OK", body.as_str()),
            None => response("404 Not Found", "404 नहीं मिला"),
        }
    }
}

/// Whether to wait for another request after `served` of them (a limit of
/// 0 means no limit).
pub fn keep_serving(served: u64, limit: u64) -> (b: bool)
    ensures
        b == !(limit != 0 && served >= limit),
{
    !(limit != 0 && served >= limit)
}

/// A page just routed is what a request for its path gets back, whatever was
/// routed before.
pub proof fn law_routed_page_served(routes: Seq<(Seq<char>, Seq<char>)>, path: Seq<char>, body: Seq<char>, line: Seq<char>)
    requires
        percent_decode_spec(request_path_spec(line)) == path,
    ensures
        response_spec(sorted_insert(routes, path, body), line) == http_response("200 OK"@, body),
{
    law_lookup_after_insert(routes, path, body, path);
}

} // verus!
