//! Responses built once and written many times: the status pages the server
//! generates itself, and the encodings of a file.
use vstd::prelude::*;
use vstd::slice::slice_subrange;
use vstd::string::StringExecFns;
use vstd::utf8::{encode_utf8, encode_utf8_valid_utf8, valid_utf8};

use crate::text::{
    byte_len, dec_text, hex_text, law_a_cut_is_at_the_first, law_hexadecimal_reads_back, push_dec,
    push_hex,
};

verus! {

// -------------------------------------------------------------------- hashing

/// The offset basis of the 64-bit FNV-1a hash.
pub const FNV_OFFSET: u64 = 0xcbf29ce484222325;

/// The prime of the 64-bit FNV-1a hash.
pub const FNV_PRIME: u64 = 0x100000001b3;

/// A hash with one more word mixed in.
pub open spec fn mixed(hash: u64, word: u64) -> u64 {
    (hash ^ word).wrapping_mul(FNV_PRIME)
}

/// A hash with a run of bytes mixed in, one after the other.
pub open spec fn mixed_bytes(hash: u64, bytes: Seq<u8>) -> u64
    decreases bytes.len(),
{
    if bytes.len() == 0 {
        hash
    } else {
        mixed(mixed_bytes(hash, bytes.drop_last()), bytes.last() as u64)
    }
}

/// Mixes one word into a hash.
pub fn mix(hash: u64, word: u64) -> (r: u64)
    ensures
        r == mixed(hash, word),
{
    (hash ^ word).wrapping_mul(FNV_PRIME)
}

/// Mixes a run of bytes into a hash.
pub fn mix_bytes(hash: u64, bytes: &[u8]) -> (r: u64)
    ensures
        r == mixed_bytes(hash, bytes@),
{
    let mut h: u64 = hash;
    let mut i: usize = 0;
    while i < bytes.len()
        invariant
            0 <= i <= bytes.len(),
            h == mixed_bytes(hash, bytes@.take(i as int)),
        decreases bytes.len() - i,
    {
        assert(bytes@.take(i + 1).drop_last() == bytes@.take(i as int));
        h = mix(h, bytes[i] as u64);
        i = i + 1;
    }
    assert(bytes@.take(bytes.len() as int) == bytes@);
    h
}

/// The strong validator of a body: its length and its hash, in hexadecimal.
pub open spec fn etag_text(body: Seq<u8>) -> Seq<char> {
    hex_text(body.len()) + "-"@ + hex_text(mixed_bytes(FNV_OFFSET, body) as nat)
}

/// Makes the validator of a body. Content does not change once it is cached, so
/// a content hash is an exact validator.
pub fn etag_for(body: &[u8]) -> (r: String)
    ensures
        r@ == etag_text(body@),
{
    let mut s = String::new();
    push_hex(&mut s, body.len() as u64);
    assert(s@ =~= hex_text(body@.len()));
    s.append("-");
    push_hex(&mut s, mix_bytes(FNV_OFFSET, body));
    s
}

// --------------------------------------------------------------- status pages

/// The body of a generated status page.
pub open spec fn status_body(code: u16, reason: Seq<char>) -> Seq<char> {
    "<!doctype html><title>"@ + dec_text(code as nat) + " "@ + reason + "</title><h1>"@ + dec_text(
        code as nat,
    ) + " "@ + reason + "</h1>\n"@
}

/// The header that one status must carry beyond the common ones: a refusal of a
/// method says which methods there are.
pub open spec fn required_header(code: u16) -> Seq<char> {
    if code == 405 {
        "Allow: GET, HEAD\r\n"@
    } else {
        ""@
    }
}

/// The header block of a generated status page. `no-store` keeps a shared cache
/// from answering 404 for a URL after the page behind it exists.
pub open spec fn status_head(
    code: u16,
    reason: Seq<char>,
    conn: Seq<char>,
    security: Seq<char>,
) -> Seq<char> {
    "HTTP/1.1 "@ + dec_text(code as nat) + " "@ + reason
        + "\r\nContent-Type: text/html; charset=utf-8\r\nContent-Length: "@ + dec_text(
        encode_utf8(status_body(code, reason)).len(),
    ) + "\r\nCache-Control: no-store\r\nConnection: "@ + conn + "\r\n"@ + required_header(code)
        + security + "\r\n"@
}

/// The word in a `Connection` header.
pub open spec fn connection_word(keep_alive: bool) -> Seq<char> {
    if keep_alive {
        "keep-alive"@
    } else {
        "close"@
    }
}

/// The bytes of a generated status response. A HEAD answer stops where the body
/// starts, and still states the body's length.
pub open spec fn status_wire(
    code: u16,
    reason: Seq<char>,
    security: Seq<char>,
    keep_alive: bool,
    is_head: bool,
) -> Seq<u8> {
    let head = encode_utf8(status_head(code, reason, connection_word(keep_alive), security));
    if is_head {
        head
    } else {
        head + encode_utf8(status_body(code, reason))
    }
}

/// One response as a buffer; `header_len` marks where its body starts.
struct Prebuilt {
    full: Vec<u8>,
    header_len: usize,
}

impl Prebuilt {
    #[verifier::type_invariant]
    spec fn inv(&self) -> bool {
        self.header_len <= self.full.len()
    }

    spec fn wire(&self, is_head: bool) -> Seq<u8> {
        if is_head {
            self.full@.take(self.header_len as int)
        } else {
            self.full@
        }
    }
}

/// One status response in both `Connection` forms, built once.
pub struct StatusResponse {
    ka: Prebuilt,
    close: Prebuilt,
}

impl StatusResponse {
    /// The bytes for one request.
    pub closed spec fn wire(&self, keep_alive: bool, is_head: bool) -> Seq<u8> {
        if keep_alive {
            self.ka.wire(is_head)
        } else {
            self.close.wire(is_head)
        }
    }

    /// How many bytes the response retains.
    pub open spec fn size(&self) -> nat {
        self.wire(true, false).len() + self.wire(false, false).len()
    }

    /// The bytes to write for one request. `keep_alive` picks the `Connection`
    /// form; `is_head` drops the body.
    pub fn bytes(&self, keep_alive: bool, is_head: bool) -> (r: &[u8])
        ensures
            r@ == self.wire(keep_alive, is_head),
    {
        let p = if keep_alive {
            &self.ka
        } else {
            &self.close
        };
        proof {
            use_type_invariant(p);
        }
        if is_head {
            slice_subrange(p.full.as_slice(), 0, p.header_len)
        } else {
            p.full.as_slice()
        }
    }

    /// Counts the bytes that are retained, in a word wide enough for any two
    /// lengths.
    fn wide_size(&self) -> (r: u128)
        ensures
            r == self.size(),
            r <= 2 * usize::MAX,
    {
        self.ka.full.len() as u128 + self.close.full.len() as u128
    }

    /// How many bytes are retained: both forms.
    pub fn retained_bytes(&self) -> (r: usize)
        requires
            self.size() <= usize::MAX,
        ensures
            r == self.size(),
    {
        self.ka.full.len() + self.close.full.len()
    }
}

/// Builds one `Connection` form of a status response.
fn build_form(code: u16, reason: &str, conn: &str, security_headers: &str, body: &str) -> (r:
    Prebuilt)
    requires
        body@ == status_body(code, reason@),
    ensures
        r.wire(true) == encode_utf8(status_head(code, reason@, conn@, security_headers@)),
        r.wire(false) == r.wire(true) + encode_utf8(body@),
{
    let mut head = "HTTP/1.1 ".to_string();
    push_dec(&mut head, code as u64);
    head.append(" ");
    head.append(reason);
    head.append("\r\nContent-Type: text/html; charset=utf-8\r\nContent-Length: ");
    push_dec(&mut head, byte_len(body) as u64);
    head.append("\r\nCache-Control: no-store\r\nConnection: ");
    head.append(conn);
    head.append("\r\n");
    if code == 405 {
        head.append("Allow: GET, HEAD\r\n");
    } else {
        head.append("");
    }
    head.append(security_headers);
    head.append("\r\n");
    let header_len: usize = byte_len(head.as_str());
    let mut full: Vec<u8> = Vec::new();
    full.extend_from_slice(head.as_str().as_bytes());
    assert(full@ =~= encode_utf8(head@));
    full.extend_from_slice(body.as_bytes());
    let r = Prebuilt { full, header_len };
    assert(full@.take(header_len as int) =~= encode_utf8(head@));
    r
}

/// Builds both `Connection` forms of one generated status response.
pub fn build_status(code: u16, reason: &str, security_headers: &str) -> (r: StatusResponse)
    ensures
        forall|keep_alive: bool, is_head: bool| #[trigger]
            r.wire(keep_alive, is_head) == status_wire(
                code,
                reason@,
                security_headers@,
                keep_alive,
                is_head,
            ),
{
    let mut body = "<!doctype html><title>".to_string();
    push_dec(&mut body, code as u64);
    body.append(" ");
    body.append(reason);
    body.append("</title><h1>");
    push_dec(&mut body, code as u64);
    body.append(" ");
    body.append(reason);
    body.append("</h1>\n");
    StatusResponse {
        ka: build_form(code, reason, "keep-alive", security_headers, body.as_str()),
        close: build_form(code, reason, "close", security_headers, body.as_str()),
    }
}

/// Every status the server generates on its own, built once per security-header
/// block: one set per site, and one for what is answered before a host resolves.
pub struct ErrorPages {
    pub bad_request: StatusResponse,
    pub not_found: StatusResponse,
    pub method_not_allowed: StatusResponse,
    pub request_timeout: StatusResponse,
    pub headers_too_large: StatusResponse,
    pub internal_error: StatusResponse,
}

/// A response is the status page for a code.
pub open spec fn is_status(
    r: StatusResponse,
    code: u16,
    reason: Seq<char>,
    security: Seq<char>,
) -> bool {
    forall|keep_alive: bool, is_head: bool| #[trigger]
        r.wire(keep_alive, is_head) == status_wire(code, reason, security, keep_alive, is_head)
}

/// A set of pages is the one for a security-header block.
pub open spec fn pages_for(e: ErrorPages, security: Seq<char>) -> bool {
    &&& is_status(e.bad_request, 400, "Bad Request"@, security)
    &&& is_status(e.not_found, 404, "Not Found"@, security)
    &&& is_status(e.method_not_allowed, 405, "Method Not Allowed"@, security)
    &&& is_status(e.request_timeout, 408, "Request Timeout"@, security)
    &&& is_status(e.headers_too_large, 431, "Request Header Fields Too Large"@, security)
    &&& is_status(e.internal_error, 500, "Internal Server Error"@, security)
}

/// How many bytes both forms of a status page take.
pub open spec fn status_size(code: u16, reason: Seq<char>, security: Seq<char>) -> nat {
    status_wire(code, reason, security, true, false).len() + status_wire(
        code,
        reason,
        security,
        false,
        false,
    ).len()
}

/// How many bytes the set for a security-header block takes.
pub open spec fn pages_size(security: Seq<char>) -> nat {
    status_size(400, "Bad Request"@, security) + status_size(404, "Not Found"@, security)
        + status_size(405, "Method Not Allowed"@, security) + status_size(
        408,
        "Request Timeout"@,
        security,
    ) + status_size(431, "Request Header Fields Too Large"@, security) + status_size(
        500,
        "Internal Server Error"@,
        security,
    )
}

/// The set for a security-header block takes as many bytes as its pages do.
pub proof fn lemma_pages_size(e: ErrorPages, security: Seq<char>)
    requires
        pages_for(e, security),
    ensures
        e.size() == pages_size(security),
{
}

impl ErrorPages {
    /// How many bytes the set retains.
    pub open spec fn size(&self) -> nat {
        self.bad_request.size() + self.not_found.size() + self.method_not_allowed.size()
            + self.request_timeout.size() + self.headers_too_large.size()
            + self.internal_error.size()
    }

    /// Builds the set for a security-header block.
    pub fn new(security_headers: &str) -> (r: ErrorPages)
        ensures
            pages_for(r, security_headers@),
    {
        ErrorPages {
            bad_request: build_status(400, "Bad Request", security_headers),
            not_found: build_status(404, "Not Found", security_headers),
            method_not_allowed: build_status(405, "Method Not Allowed", security_headers),
            request_timeout: build_status(408, "Request Timeout", security_headers),
            headers_too_large: build_status(
                431,
                "Request Header Fields Too Large",
                security_headers,
            ),
            internal_error: build_status(500, "Internal Server Error", security_headers),
        }
    }

    /// Counts the bytes that are retained, in a word wide enough for any twelve
    /// lengths.
    pub fn wide_size(&self) -> (r: u128)
        ensures
            r == self.size(),
            r <= 12 * usize::MAX,
    {
        self.bad_request.wide_size() + self.not_found.wide_size()
            + self.method_not_allowed.wide_size() + self.request_timeout.wide_size()
            + self.headers_too_large.wide_size() + self.internal_error.wide_size()
    }

    /// How many bytes are retained. They count against the cache budget, which
    /// covers every byte that is kept, not only those of cached files.
    pub fn retained_bytes(&self) -> (r: usize)
        requires
            self.size() <= usize::MAX,
        ensures
            r == self.size(),
    {
        self.bad_request.retained_bytes() + self.not_found.retained_bytes()
            + self.method_not_allowed.retained_bytes() + self.request_timeout.retained_bytes()
            + self.headers_too_large.retained_bytes() + self.internal_error.retained_bytes()
    }
}

// ------------------------------------------------------------------- variants

/// One encoding of a file: the complete keep-alive response as one buffer, so
/// that serving is one write. `header_len` marks where the body starts.
pub struct Variant {
    pub full_ka: Vec<u8>,
    pub header_len: usize,
    pub etag: String,
    pub encoding: Option<&'static str>,
}

/// The text of an encoding's name.
pub open spec fn encoding_text(encoding: Option<&'static str>) -> Option<Seq<char>> {
    match encoding {
        Some(e) => Some(e@),
        None => None,
    }
}

/// The header block of a 200, up to its `Connection` field.
pub open spec fn ok_front(
    mime: Seq<char>,
    body_len: nat,
    etag: Seq<char>,
    encoding: Option<Seq<char>>,
    vary: bool,
    cache_control: Seq<char>,
) -> Seq<char> {
    let h = "HTTP/1.1 200 OK\r\nContent-Type: "@ + mime + "\r\nContent-Length: "@ + dec_text(body_len)
        + "\r\nETag: \""@ + etag + "\"\r\n"@;
    let h = match encoding {
        Some(e) => h + "Content-Encoding: "@ + e + "\r\n"@,
        None => h,
    };
    let h = if vary {
        h + "Vary: Accept-Encoding\r\n"@
    } else {
        h
    };
    h + "Cache-Control: "@ + cache_control + "\r\n"@
}

/// The header block of a 200.
pub open spec fn ok_head(
    mime: Seq<char>,
    body_len: nat,
    etag: Seq<char>,
    encoding: Option<Seq<char>>,
    vary: bool,
    cache_control: Seq<char>,
    security: Seq<char>,
) -> Seq<char> {
    ok_front(mime, body_len, etag, encoding, vary, cache_control) + "Connection: keep-alive\r\n"@
        + security + "\r\n"@
}

/// Builds the header block of a 200, for a body in memory and for one on disk
/// alike.
pub fn build_header(
    mime: &str,
    body_len: usize,
    etag: &str,
    encoding: Option<&'static str>,
    vary: bool,
    cache_control: &str,
    security_headers: &str,
) -> (r: String)
    ensures
        r@ == ok_head(
            mime@,
            body_len as nat,
            etag@,
            encoding_text(encoding),
            vary,
            cache_control@,
            security_headers@,
        ),
{
    let mut h = "HTTP/1.1 200 OK\r\nContent-Type: ".to_string();
    h.append(mime);
    h.append("\r\nContent-Length: ");
    push_dec(&mut h, body_len as u64);
    h.append("\r\nETag: \"");
    h.append(etag);
    h.append("\"\r\n");
    if let Some(enc) = encoding {
        h.append("Content-Encoding: ");
        h.append(enc);
        h.append("\r\n");
    }
    if vary {
        h.append("Vary: Accept-Encoding\r\n");
    }
    h.append("Cache-Control: ");
    h.append(cache_control);
    h.append("\r\n");
    h.append("Connection: keep-alive\r\n");
    h.append(security_headers);
    h.append("\r\n");
    h
}

/// The header block of the 200 for a body.
pub open spec fn variant_head(
    mime: Seq<char>,
    body: Seq<u8>,
    encoding: Option<Seq<char>>,
    vary: bool,
    cache_control: Seq<char>,
    security: Seq<char>,
) -> Seq<char> {
    ok_head(mime, body.len(), etag_text(body), encoding, vary, cache_control, security)
}

impl Variant {
    /// The header ends within the buffer and is text.
    pub open spec fn wf(&self) -> bool {
        self.header_len <= self.full_ka.len() && valid_utf8(self.head())
    }

    /// The header block.
    pub open spec fn head(&self) -> Seq<u8> {
        self.full_ka@.take(self.header_len as int)
    }

    /// The body.
    pub open spec fn body(&self) -> Seq<u8> {
        self.full_ka@.skip(self.header_len as int)
    }
}

/// A variant is the one for a body under given headers.
pub open spec fn is_variant_of(
    v: Variant,
    mime: Seq<char>,
    body: Seq<u8>,
    encoding: Option<Seq<char>>,
    vary: bool,
    cache_control: Seq<char>,
    security: Seq<char>,
) -> bool {
    let head = encode_utf8(variant_head(mime, body, encoding, vary, cache_control, security));
    &&& v.full_ka@ == head + body
    &&& v.header_len == head.len()
    &&& v.etag@ == etag_text(body)
    &&& encoding_text(v.encoding) == encoding
}

/// Builds the full keep-alive response for one body.
pub fn build_variant(
    mime: &str,
    body: &[u8],
    encoding: Option<&'static str>,
    vary: bool,
    cache_control: &str,
    security_headers: &str,
) -> (r: Variant)
    ensures
        is_variant_of(
            r,
            mime@,
            body@,
            encoding_text(encoding),
            vary,
            cache_control@,
            security_headers@,
        ),
        r.wf(),
        r.body() == body@,
        r.encoding == encoding,
{
    let etag = etag_for(body);
    let h = build_header(
        mime,
        body.len(),
        etag.as_str(),
        encoding,
        vary,
        cache_control,
        security_headers,
    );
    let header_len: usize = byte_len(h.as_str());
    let mut full_ka: Vec<u8> = Vec::new();
    full_ka.extend_from_slice(h.as_str().as_bytes());
    assert(full_ka@ =~= encode_utf8(h@));
    full_ka.extend_from_slice(body);
    assert(full_ka@ =~= encode_utf8(h@) + body@);
    assert(full_ka@.skip(header_len as int) =~= body@);
    assert(full_ka@.take(header_len as int) =~= encode_utf8(h@));
    proof {
        encode_utf8_valid_utf8(h@);
    }
    Variant { full_ka, header_len, etag, encoding }
}

// ----------------------------------------------------------------------- laws

/// A HEAD answer is the GET answer cut off where the body starts: the same
/// header block, stating the length of the body it leaves out.
pub proof fn law_head_is_a_prefix_of_get(
    code: u16,
    reason: Seq<char>,
    security: Seq<char>,
    keep_alive: bool,
)
    ensures
        status_wire(code, reason, security, keep_alive, true).is_prefix_of(
            status_wire(code, reason, security, keep_alive, false),
        ),
        status_wire(code, reason, security, keep_alive, false).len() == status_wire(
            code,
            reason,
            security,
            keep_alive,
            true,
        ).len() + encode_utf8(status_body(code, reason)).len(),
{
}

/// A status page says that nothing may store it, whatever its status.
pub proof fn law_status_pages_are_never_stored(
    code: u16,
    reason: Seq<char>,
    conn: Seq<char>,
    security: Seq<char>,
) -> (r: (Seq<char>, Seq<char>))
    ensures
        status_head(code, reason, conn, security) == r.0 + "\r\nCache-Control: no-store\r\n"@ + r.1,
{
    reveal_strlit("\r\nCache-Control: no-store\r\nConnection: ");
    reveal_strlit("\r\nCache-Control: no-store\r\n");
    reveal_strlit("Connection: ");
    let before = "HTTP/1.1 "@ + dec_text(code as nat) + " "@ + reason
        + "\r\nContent-Type: text/html; charset=utf-8\r\nContent-Length: "@ + dec_text(
        encode_utf8(status_body(code, reason)).len(),
    );
    let after = "Connection: "@ + conn + "\r\n"@ + required_header(code) + security + "\r\n"@;
    assert("\r\nCache-Control: no-store\r\nConnection: "@ =~= "\r\nCache-Control: no-store\r\n"@
        + "Connection: "@);
    assert(status_head(code, reason, conn, security) =~= before
        + "\r\nCache-Control: no-store\r\n"@ + after);
    (before, after)
}

// --------------------------------------------------------------- laws of hashing

/// A multiplication by the prime can be undone, in 64 bits.
proof fn lemma_prime_is_undone(a: u64)
    ensures
        a.wrapping_mul(0x100000001b3).wrapping_mul(0xce965057aff6957b) == a,
{
    let m: int = 0x1_0000_0000_0000_0000;
    let p: int = 0x100000001b3;
    let q: int = 0xce965057aff6957b;
    let x = a as int;
    assert(p * q == 887285111055 * m + 1);
    vstd::arithmetic::div_mod::lemma_mul_mod_noop_left(x * p, q, m);
    assert(((x * p) % m * q) % m == ((x * p) * q) % m);
    assert((x * p) * q == x + m * (887285111055 * x)) by (nonlinear_arith)
        requires
            p * q == 887285111055 * m + 1,
    ;
    vstd::arithmetic::div_mod::lemma_mod_multiples_vanish(887285111055 * x, x, m);
    vstd::arithmetic::div_mod::lemma_small_mod(x as nat, m as nat);
}

/// Mixing in loses nothing: of one hash, two words give two hashes, and of one
/// word, two hashes do.
pub proof fn law_mixing_is_injective(a: u64, b: u64, v: u64, w: u64)
    ensures
        mixed(a, v) == mixed(a, w) ==> v == w,
        mixed(a, v) == mixed(b, v) ==> a == b,
{
    lemma_prime_is_undone(a ^ v);
    lemma_prime_is_undone(a ^ w);
    lemma_prime_is_undone(b ^ v);
    assert(a ^ v == a ^ w ==> v == w) by (bit_vector);
    assert(a ^ v == b ^ v ==> a == b) by (bit_vector);
}

/// A run of bytes is mixed in from its first byte to its last, every one of them:
/// nothing changes the hash by nothing, one byte is the exclusive or with it times
/// the prime, and a run behind a run is mixed into what the first run gave.
pub proof fn law_every_byte_is_mixed_in(hash: u64, b: u8, x: Seq<u8>, y: Seq<u8>)
    ensures
        mixed_bytes(hash, seq![]) == hash,
        mixed_bytes(hash, seq![b]) == (hash ^ (b as u64)).wrapping_mul(0x100000001b3),
        mixed_bytes(hash, x + y) == mixed_bytes(mixed_bytes(hash, x), y),
    decreases y.len(),
{
    reveal_with_fuel(mixed_bytes, 2);
    assert(seq![b].drop_last() =~= seq![]);
    if y.len() == 0 {
        assert(x + y =~= x);
    } else {
        law_every_byte_is_mixed_in(hash, b, x, y.drop_last());
        assert((x + y).drop_last() =~= x + y.drop_last());
        assert((x + y).last() == y.last());
    }
}

/// What two hashes become under one run of bytes differs where they do.
pub proof fn law_a_run_keeps_hashes_apart(a: u64, b: u64, x: Seq<u8>)
    ensures
        mixed_bytes(a, x) == mixed_bytes(b, x) ==> a == b,
    decreases x.len(),
{
    if x.len() > 0 {
        law_a_run_keeps_hashes_apart(a, b, x.drop_last());
        law_mixing_is_injective(
            mixed_bytes(a, x.drop_last()),
            mixed_bytes(b, x.drop_last()),
            x.last() as u64,
            x.last() as u64,
        );
    }
}

/// Two runs of bytes that differ in one place hash apart, wherever that place is.
pub proof fn law_a_changed_byte_changes_the_hash(
    hash: u64,
    front: Seq<u8>,
    a: u8,
    b: u8,
    back: Seq<u8>,
)
    requires
        a != b,
    ensures
        mixed_bytes(hash, front + seq![a] + back) != mixed_bytes(hash, front + seq![b] + back),
{
    let h = mixed_bytes(hash, front);
    law_every_byte_is_mixed_in(hash, a, front + seq![a], back);
    law_every_byte_is_mixed_in(hash, b, front + seq![b], back);
    law_every_byte_is_mixed_in(hash, a, front, seq![a]);
    law_every_byte_is_mixed_in(hash, b, front, seq![b]);
    law_every_byte_is_mixed_in(h, a, seq![], seq![]);
    law_every_byte_is_mixed_in(h, b, seq![], seq![]);
    law_mixing_is_injective(h, h, a as u64, b as u64);
    law_a_run_keeps_hashes_apart(
        mixed_bytes(hash, front + seq![a]),
        mixed_bytes(hash, front + seq![b]),
        back,
    );
}

/// A validator holds for its own body: bodies of two lengths have two validators,
/// and so have bodies that differ in one byte, wherever it stands. Two bodies share
/// one only where both their lengths and their hashes agree.
pub proof fn law_validators_tell_bodies_apart(
    x: Seq<u8>,
    y: Seq<u8>,
    front: Seq<u8>,
    a: u8,
    b: u8,
    back: Seq<u8>,
)
    ensures
        etag_text(x) == etag_text(y) ==> x.len() == y.len() && mixed_bytes(FNV_OFFSET, x)
            == mixed_bytes(FNV_OFFSET, y),
        a != b ==> etag_text(front + seq![a] + back) != etag_text(front + seq![b] + back),
{
    if etag_text(x) == etag_text(y) {
        lemma_etags(x, y);
    }
    if a != b && etag_text(front + seq![a] + back) == etag_text(front + seq![b] + back) {
        lemma_etags(front + seq![a] + back, front + seq![b] + back);
        law_a_changed_byte_changes_the_hash(FNV_OFFSET, front, a, b, back);
    }
}

proof fn lemma_etags(x: Seq<u8>, y: Seq<u8>)
    requires
        etag_text(x) == etag_text(y),
    ensures
        x.len() == y.len(),
        mixed_bytes(FNV_OFFSET, x) == mixed_bytes(FNV_OFFSET, y),
{
    reveal_strlit("-");
    let lx = hex_text(x.len());
    let ly = hex_text(y.len());
    let hx = hex_text(mixed_bytes(FNV_OFFSET, x) as nat);
    let hy = hex_text(mixed_bytes(FNV_OFFSET, y) as nat);
    law_hexadecimal_reads_back(x.len());
    law_hexadecimal_reads_back(y.len());
    law_hexadecimal_reads_back(mixed_bytes(FNV_OFFSET, x) as nat);
    law_hexadecimal_reads_back(mixed_bytes(FNV_OFFSET, y) as nat);
    assert(!lx.contains('-') && !ly.contains('-'));
    assert(etag_text(x) =~= lx + seq!['-'] + hx);
    assert(etag_text(y) =~= ly + seq!['-'] + hy);
    law_a_cut_is_at_the_first(lx, '-', hx);
    law_a_cut_is_at_the_first(ly, '-', hy);
}

// ---------------------------------------------------------------- laws of headers

/// A header block holds a line, behind its first.
pub open spec fn has_line(head: Seq<char>, line: Seq<char>) -> bool {
    exists|a: Seq<char>, b: Seq<char>| head == #[trigger] (a + "\r\n"@ + line + "\r\n"@ + b)
}

/// A line that is found is there.
pub proof fn lemma_has_line(head: Seq<char>, a: Seq<char>, line: Seq<char>, b: Seq<char>)
    requires
        head == a + "\r\n"@ + line + "\r\n"@ + b,
    ensures
        has_line(head, line),
{
}

/// A status page states its type, the length of its body in bytes, that it is not to
/// be stored, and what becomes of the connection; the refusal of a method also says
/// which methods there are, and nothing else adds a line of its own.
pub proof fn law_status_pages_state_their_fields(
    code: u16,
    reason: Seq<char>,
    conn: Seq<char>,
    security: Seq<char>,
)
    ensures
        ({
            let head = status_head(code, reason, conn, security);
            let len = encode_utf8(status_body(code, reason)).len();
            &&& has_line(head, "Content-Type: text/html; charset=utf-8"@)
            &&& has_line(head, "Content-Length: "@ + dec_text(len))
            &&& has_line(head, "Cache-Control: no-store"@)
            &&& has_line(head, "Connection: "@ + conn)
            &&& code == 405 ==> has_line(head, "Allow: GET, HEAD"@)
            &&& code != 405 ==> ("\r\nConnection: "@ + conn + "\r\n"@ + security
                + "\r\n"@).is_suffix_of(head)
        }),
{
    let len = dec_text(encode_utf8(status_body(code, reason)).len());
    let line = "HTTP/1.1 "@ + dec_text(code as nat) + " "@ + reason;
    let head = status_head(code, reason, conn, security);
    let nl = "\r\n"@;
    let ct = "Content-Type: text/html; charset=utf-8"@;
    let cl = "Content-Length: "@;
    let cc = "Cache-Control: no-store"@;
    let cn = "Connection: "@;
    let tail = required_header(code) + security + nl;
    assert("\r\nContent-Type: text/html; charset=utf-8\r\nContent-Length: "@ =~= nl + ct + nl + cl
        && "\r\nCache-Control: no-store\r\nConnection: "@ =~= nl + cc + nl + cn
        && "\r\nConnection: "@ =~= nl + cn) by {
        reveal_strlit("\r\nContent-Type: text/html; charset=utf-8\r\nContent-Length: ");
        reveal_strlit("\r\nCache-Control: no-store\r\nConnection: ");
        reveal_strlit("\r\nConnection: ");
        reveal_strlit("\r\n");
        reveal_strlit("Content-Type: text/html; charset=utf-8");
        reveal_strlit("Content-Length: ");
        reveal_strlit("Cache-Control: no-store");
        reveal_strlit("Connection: ");
    }
    assert(head =~= line + (nl + ct + nl + cl) + len + (nl + cc + nl + cn) + conn + nl + tail);
    lemma_status_pieces(line, nl, ct, cl, len, cc, cn, conn, tail, head);
    if code == 405 {
        let allow = "Allow: GET, HEAD"@;
        assert("Allow: GET, HEAD\r\n"@ =~= allow + nl) by {
            reveal_strlit("Allow: GET, HEAD\r\n");
            reveal_strlit("Allow: GET, HEAD");
            reveal_strlit("\r\n");
        }
        assert(tail =~= allow + nl + (security + nl));
        lemma_status_line_behind(line, nl, ct, cl, len, cc, cn, conn, allow, security + nl, head);
    } else {
        assert(required_header(code) =~= seq![]) by {
            reveal_strlit("");
        }
        assert(tail =~= security + nl);
        let end = "\r\nConnection: "@ + conn + nl + security + nl;
        assert(end =~= nl + cn + conn + nl + tail);
        lemma_status_end(line, nl, ct, cl, len, cc, cn, conn, tail, head);
    }
}

proof fn lemma_status_line_behind(
    line: Seq<char>,
    nl: Seq<char>,
    ct: Seq<char>,
    cl: Seq<char>,
    len: Seq<char>,
    cc: Seq<char>,
    cn: Seq<char>,
    conn: Seq<char>,
    allow: Seq<char>,
    rest: Seq<char>,
    head: Seq<char>,
)
    requires
        nl == "\r\n"@,
        head == line + (nl + ct + nl + cl) + len + (nl + cc + nl + cn) + conn + nl + (allow + nl
            + rest),
    ensures
        has_line(head, allow),
{
    let before = line + (nl + ct + nl + cl) + len + (nl + cc + nl + cn) + conn;
    assert(head =~= before + nl + allow + nl + rest);
    lemma_has_line(head, before, allow, rest);
}

proof fn lemma_status_end(
    line: Seq<char>,
    nl: Seq<char>,
    ct: Seq<char>,
    cl: Seq<char>,
    len: Seq<char>,
    cc: Seq<char>,
    cn: Seq<char>,
    conn: Seq<char>,
    tail: Seq<char>,
    head: Seq<char>,
)
    requires
        head == line + (nl + ct + nl + cl) + len + (nl + cc + nl + cn) + conn + nl + tail,
    ensures
        (nl + cn + conn + nl + tail).is_suffix_of(head),
{
    let before = line + (nl + ct + nl + cl) + len + nl + cc;
    let end = nl + cn + conn + nl + tail;
    assert(head =~= before + end);
    assert(end =~= head.subrange(head.len() - end.len(), head.len() as int));
}

proof fn lemma_status_pieces(
    line: Seq<char>,
    nl: Seq<char>,
    ct: Seq<char>,
    cl: Seq<char>,
    len: Seq<char>,
    cc: Seq<char>,
    cn: Seq<char>,
    conn: Seq<char>,
    tail: Seq<char>,
    head: Seq<char>,
)
    requires
        nl == "\r\n"@,
        head == line + (nl + ct + nl + cl) + len + (nl + cc + nl + cn) + conn + nl + tail,
    ensures
        has_line(head, ct),
        has_line(head, cl + len),
        has_line(head, cc),
        has_line(head, cn + conn),
{
    let rest = nl + tail;
    let b1 = cl + len + nl + cc + nl + cn + conn + rest;
    assert(head =~= line + nl + ct + nl + b1);
    lemma_has_line(head, line, ct, b1);
    let a2 = line + nl + ct;
    let b2 = cc + nl + cn + conn + rest;
    assert(head =~= a2 + nl + (cl + len) + nl + b2);
    lemma_has_line(head, a2, cl + len, b2);
    let a3 = a2 + nl + cl + len;
    let b3 = cn + conn + rest;
    assert(head =~= a3 + nl + cc + nl + b3);
    lemma_has_line(head, a3, cc, b3);
    let a4 = a3 + nl + cc;
    assert(head =~= a4 + nl + (cn + conn) + nl + tail);
    lemma_has_line(head, a4, cn + conn, tail);
}

/// What is sent with content. Without an encoding and without a choice the header is
/// the status, the type, the length, the validator in quotes and the caching rule,
/// and then the connection, the security headers and the blank line. An encoding adds
/// the line that names it, and a choice the line that says so, and nothing else.
pub proof fn law_content_states_its_fields(
    mime: Seq<char>,
    len: nat,
    etag: Seq<char>,
    encoding: Seq<char>,
    cache_control: Seq<char>,
    security: Seq<char>,
)
    ensures
        ({
            let front = "HTTP/1.1 200 OK\r\n"@ + "Content-Type: "@ + mime + "\r\n"@
                + "Content-Length: "@ + dec_text(len) + "\r\n"@ + "ETag: \""@ + etag
                + "\"\r\n"@;
            let back = "Cache-Control: "@ + cache_control + "\r\n"@ + "Connection: keep-alive\r\n"@
                + security + "\r\n"@;
            let coded = "Content-Encoding: "@ + encoding + "\r\n"@;
            let vary = "Vary: Accept-Encoding\r\n"@;
            &&& ok_head(mime, len, etag, None, false, cache_control, security) == front + back
            &&& ok_head(mime, len, etag, None, true, cache_control, security) == front + vary + back
            &&& ok_head(mime, len, etag, Some(encoding), true, cache_control, security) == front
                + coded + vary + back
            &&& ok_head(mime, len, etag, Some(encoding), false, cache_control, security) == front
                + coded + back
        }),
{
    let one = "HTTP/1.1 200 OK\r\n"@ + "Content-Type: "@;
    assert("HTTP/1.1 200 OK\r\nContent-Type: "@ =~= one) by {
        reveal_strlit("HTTP/1.1 200 OK\r\nContent-Type: ");
        reveal_strlit("HTTP/1.1 200 OK\r\n");
        reveal_strlit("Content-Type: ");
    }
    assert("\r\nContent-Length: "@ =~= "\r\n"@ + "Content-Length: "@) by {
        reveal_strlit("\r\nContent-Length: ");
        reveal_strlit("\r\n");
        reveal_strlit("Content-Length: ");
    }
    assert("\r\nETag: \""@ =~= "\r\n"@ + "ETag: \""@) by {
        reveal_strlit("\r\nETag: \"");
        reveal_strlit("\r\n");
        reveal_strlit("ETag: \"");
    }
    let front = one + mime + "\r\n"@ + "Content-Length: "@ + dec_text(len) + "\r\n"@
        + "ETag: \""@ + etag + "\"\r\n"@;
    let h = "HTTP/1.1 200 OK\r\nContent-Type: "@ + mime + "\r\nContent-Length: "@ + dec_text(len)
        + "\r\nETag: \""@ + etag + "\"\r\n"@;
    assert(h =~= front);
    lemma_ok_tail(h, encoding, cache_control, security);
}

proof fn lemma_ok_tail(
    h: Seq<char>,
    encoding: Seq<char>,
    cache_control: Seq<char>,
    security: Seq<char>,
)
    ensures
        ({
            let back = "Cache-Control: "@ + cache_control + "\r\n"@ + "Connection: keep-alive\r\n"@
                + security + "\r\n"@;
            let coded = "Content-Encoding: "@ + encoding + "\r\n"@;
            let vary = "Vary: Accept-Encoding\r\n"@;
            let with = h + "Content-Encoding: "@ + encoding + "\r\n"@;
            &&& with == h + coded
            &&& h + "Cache-Control: "@ + cache_control + "\r\n"@ + "Connection: keep-alive\r\n"@
                + security + "\r\n"@ == h + back
            &&& h + vary + "Cache-Control: "@ + cache_control + "\r\n"@
                + "Connection: keep-alive\r\n"@ + security + "\r\n"@ == h + vary + back
            &&& with + vary + "Cache-Control: "@ + cache_control + "\r\n"@
                + "Connection: keep-alive\r\n"@ + security + "\r\n"@ == h + coded + vary + back
            &&& with + "Cache-Control: "@ + cache_control + "\r\n"@ + "Connection: keep-alive\r\n"@
                + security + "\r\n"@ == h + coded + back
        }),
{
    let coded = "Content-Encoding: "@ + encoding + "\r\n"@;
    let vary = "Vary: Accept-Encoding\r\n"@;
    let with = h + "Content-Encoding: "@ + encoding + "\r\n"@;
    assert(with =~= h + coded);
    lemma_back(h, cache_control, security);
    lemma_back(h + vary, cache_control, security);
    lemma_back(with + vary, cache_control, security);
    lemma_back(with, cache_control, security);
}

proof fn lemma_back(h: Seq<char>, cache_control: Seq<char>, security: Seq<char>)
    ensures
        h + "Cache-Control: "@ + cache_control + "\r\n"@ + "Connection: keep-alive\r\n"@
            + security + "\r\n"@ == h + ("Cache-Control: "@ + cache_control + "\r\n"@
            + "Connection: keep-alive\r\n"@ + security + "\r\n"@),
{
    assert(h + "Cache-Control: "@ + cache_control + "\r\n"@ + "Connection: keep-alive\r\n"@
        + security + "\r\n"@ =~= h + ("Cache-Control: "@ + cache_control + "\r\n"@
        + "Connection: keep-alive\r\n"@ + security + "\r\n"@));
}

/// The page itself names the status, in its title and in its heading.
pub proof fn law_status_bodies_name_the_status(code: u16, reason: Seq<char>)
    ensures
        ({
            let name = dec_text(code as nat) + " "@ + reason;
            status_body(code, reason) == "<!doctype html><title>"@ + name + "</title><h1>"@ + name
                + "</h1>\n"@
        }),
{
    let name = dec_text(code as nat) + " "@ + reason;
    assert(status_body(code, reason) =~= "<!doctype html><title>"@ + name + "</title><h1>"@ + name
        + "</h1>\n"@);
}

/// What is sent for a body is the header of that body and the body, with its own
/// length and its own validator in it.
pub proof fn law_a_variant_is_its_header_and_its_body(
    v: Variant,
    mime: Seq<char>,
    body: Seq<u8>,
    encoding: Option<Seq<char>>,
    vary: bool,
    cache_control: Seq<char>,
    security: Seq<char>,
)
    requires
        is_variant_of(v, mime, body, encoding, vary, cache_control, security),
    ensures
        v.full_ka@ == v.head() + v.body(),
        v.body() == body,
        v.head() == encode_utf8(
            ok_head(mime, body.len(), v.etag@, encoding, vary, cache_control, security),
        ),
        v.etag@ == etag_text(body),
        encoding_text(v.encoding) == encoding,
{
    let head = encode_utf8(variant_head(mime, body, encoding, vary, cache_control, security));
    assert(v.full_ka@.take(head.len() as int) =~= head);
    assert(v.full_ka@.skip(head.len() as int) =~= body);
}

} // verus!
