//! From a request head to the bytes of its answer.
//!
//! Every answer is decided here; what is left to the caller is to write it, and
//! to open the one file that a few answers name.
use std::sync::Arc;

use vstd::prelude::*;
use vstd::slice::slice_subrange;
use vstd::string::StringExecFns;
use vstd::utf8::encode_utf8;

use crate::cache::{Cached, DiskEntry, DiskVariant, MemEntry, Policy, SiteCache};
use crate::heads::no_cr;
use crate::http::{
    accepts, accepts_encoding, authority_of, canonical_form, canonical_of, decoded_bytes, encoded_byte,
    encoded_path, find, host_key_of, inm_matches, lists_tag, normalize_host, percent_decode,
    law_one_tag_matches_itself_alone, percent_encode_path, quoted, read_text, redirect_authority,
    take_up_to, text_of, up_to,
};
use crate::redirects::{absolute, is_absolute, is_sound, law_redirect_is_control_free, redirect_of};
use crate::request::{parse_request, request_of, Request, RequestModel};
use crate::response::{
    connection_word, encoding_text, etag_text, has_line, is_status, law_validators_tell_bodies_apart,
    lemma_has_line, ok_head,
    pages_for, status_head, status_wire, ErrorPages, StatusResponse, Variant,
};
use crate::text::{
    byte_len, chars_of, control_free, dec_text, find_char, first_of, first_run, has_char, is_control,
    law_a_cut_is_at_the_first, law_hexadecimal_reads_back, lemma_encode_concat, lemma_first_of,
    push_chars, push_dec, same_str, string_of, strip_word,
};
use crate::vhosts::{Site, Vhosts};

verus! {

/// A path of this many bytes or more is refused.
pub const MAX_PATH_LEN: usize = 1024;

/// The one URI prefix that stays reachable over plain HTTP: an ACME client
/// writes its http-01 challenge here.
pub const ACME_PREFIX: &'static str = "/.well-known/acme-challenge/";

/// The longest challenge token, in bytes.
pub const ACME_TOKEN_MAX_LEN: usize = 128;

/// The largest file that is sent as a challenge token.
pub const ACME_TOKEN_MAX_BYTES: u64 = 4096;

// -------------------------------------------------------------------- answers

/// An answer, as its caller is to carry it out. Each buffer is one write.
pub enum Reply<'a> {
    /// A buffer that was built beforehand.
    Ready { page: &'a [u8], keep_alive: bool },
    /// A buffer that was built for this request.
    Built { bytes: Vec<u8>, keep_alive: bool },
    /// A header that was built for this request, then a body that was built
    /// beforehand.
    Split { head: Vec<u8>, body: &'a [u8], keep_alive: bool },
    /// A header, then `len` bytes of a file in the snapshot of a site. The header
    /// is written only once the file is open; where it does not open, `missing`
    /// is written and the connection closed.
    File {
        site: usize,
        head: Vec<u8>,
        path: &'a str,
        len: u64,
        keep_alive: bool,
        missing: &'a [u8],
    },
    /// What [`token_reply`] makes of a challenge token read from below a site's
    /// root.
    Token { site: usize, root: &'a str, token: String, keep_alive: bool, is_head: bool },
}

/// What an answer says.
#[verifier::ext_equal]
pub enum ReplyModel {
    /// These writes, then a flush.
    Send { writes: Seq<Seq<u8>>, keep_alive: bool },
    File {
        site: usize,
        head: Seq<u8>,
        path: Seq<char>,
        len: u64,
        keep_alive: bool,
        missing: Seq<u8>,
    },
    Token { site: usize, root: Seq<char>, token: Seq<char>, keep_alive: bool, is_head: bool },
}

impl<'a> View for Reply<'a> {
    type V = ReplyModel;

    open spec fn view(&self) -> ReplyModel {
        match self {
            Reply::Ready { page, keep_alive } => ReplyModel::Send {
                writes: seq![page@],
                keep_alive: *keep_alive,
            },
            Reply::Built { bytes, keep_alive } => ReplyModel::Send {
                writes: seq![bytes@],
                keep_alive: *keep_alive,
            },
            Reply::Split { head, body, keep_alive } => ReplyModel::Send {
                writes: seq![head@, body@],
                keep_alive: *keep_alive,
            },
            Reply::File { site, head, path, len, keep_alive, missing } => ReplyModel::File {
                site: *site,
                head: head@,
                path: path@,
                len: *len,
                keep_alive: *keep_alive,
                missing: missing@,
            },
            Reply::Token { site, root, token, keep_alive, is_head } => ReplyModel::Token {
                site: *site,
                root: root@,
                token: token@,
                keep_alive: *keep_alive,
                is_head: *is_head,
            },
        }
    }
}

/// An answer of one write.
pub open spec fn one_write(bytes: Seq<u8>, keep_alive: bool) -> ReplyModel {
    ReplyModel::Send { writes: seq![bytes], keep_alive }
}

/// A refusal.
pub open spec fn refusal(resp: StatusResponse, keep_alive: bool, is_head: bool) -> ReplyModel {
    one_write(resp.wire(keep_alive, is_head), keep_alive)
}

/// Answers with one of the server's own status pages. The page is built once, so
/// this is one write.
pub fn send_error<'a>(resp: &'a StatusResponse, keep_alive: bool, is_head: bool) -> (r: Reply<'a>)
    ensures
        r@ == refusal(*resp, keep_alive, is_head),
{
    Reply::Ready { page: resp.bytes(keep_alive, is_head), keep_alive }
}

fn built<'a>(text: &str, keep_alive: bool) -> (r: Reply<'a>)
    ensures
        r@ == one_write(encode_utf8(text@), keep_alive),
{
    let mut bytes: Vec<u8> = Vec::new();
    bytes.extend_from_slice(text.as_bytes());
    assert(bytes@ =~= encode_utf8(text@));
    Reply::Built { bytes, keep_alive }
}

fn push_connection(out: &mut String, keep_alive: bool)
    ensures
        final(out)@ == old(out)@ + connection_word(keep_alive),
{
    if keep_alive {
        out.append("keep-alive");
    } else {
        out.append("close");
    }
}

/// A redirect: always a 301.
pub open spec fn redirect_text(location: Seq<char>, keep_alive: bool, security: Seq<char>) -> Seq<
    char,
> {
    "HTTP/1.1 301 Moved Permanently\r\nLocation: "@ + location
        + "\r\nContent-Length: 0\r\nConnection: "@ + connection_word(keep_alive) + "\r\n"@ + security
        + "\r\n"@
}

/// The one place that makes a redirect, so that its status is the same for all.
pub fn send_redirect<'a>(location: &str, keep_alive: bool, hdrs: &str) -> (r: Reply<'a>)
    ensures
        r@ == one_write(encode_utf8(redirect_text(location@, keep_alive, hdrs@)), keep_alive),
{
    let mut s = "HTTP/1.1 301 Moved Permanently\r\nLocation: ".to_string();
    s.append(location);
    s.append("\r\nContent-Length: 0\r\nConnection: ");
    push_connection(&mut s, keep_alive);
    s.append("\r\n");
    s.append(hdrs);
    s.append("\r\n");
    built(s.as_str(), keep_alive)
}

/// A 304. It repeats the headers that a cache needs to keep its stored 200
/// usable.
pub open spec fn not_modified_text(
    etag: Seq<char>,
    encoding: Option<Seq<char>>,
    vary: bool,
    cache_control: Seq<char>,
    keep_alive: bool,
    security: Seq<char>,
) -> Seq<char> {
    let s = "HTTP/1.1 304 Not Modified\r\nETag: \""@ + etag + "\"\r\n"@;
    let s = match encoding {
        Some(e) => s + "Content-Encoding: "@ + e + "\r\n"@,
        None => s,
    };
    let s = if vary {
        s + "Vary: Accept-Encoding\r\n"@
    } else {
        s
    };
    s + "Cache-Control: "@ + cache_control + "\r\nConnection: "@ + connection_word(keep_alive)
        + "\r\n"@ + security + "\r\n"@
}

/// Answers that what the client has is still current.
pub fn send_304<'a>(
    etag: &str,
    encoding: Option<&'static str>,
    vary: bool,
    cache_control: &str,
    keep_alive: bool,
    hdrs: &str,
) -> (r: Reply<'a>)
    ensures
        r@ == one_write(
            encode_utf8(
                not_modified_text(
                    etag@,
                    encoding_text(encoding),
                    vary,
                    cache_control@,
                    keep_alive,
                    hdrs@,
                ),
            ),
            keep_alive,
        ),
{
    let mut s = "HTTP/1.1 304 Not Modified\r\nETag: \"".to_string();
    s.append(etag);
    s.append("\"\r\n");
    if let Some(enc) = encoding {
        s.append("Content-Encoding: ");
        s.append(enc);
        s.append("\r\n");
    }
    if vary {
        s.append("Vary: Accept-Encoding\r\n");
    }
    s.append("Cache-Control: ");
    s.append(cache_control);
    s.append("\r\nConnection: ");
    push_connection(&mut s, keep_alive);
    s.append("\r\n");
    s.append(hdrs);
    s.append("\r\n");
    built(s.as_str(), keep_alive)
}

// -------------------------------------------------------------------- content

/// What a request path stands for in a cache.
#[verifier::ext_equal]
pub enum FoundModel {
    /// The entry under this key, servable as it is.
    Entry(Seq<char>),
    /// A directory index, asked for without the trailing slash.
    DirIndex,
}

/// A path without its trailing slashes.
pub open spec fn unslashed(s: Seq<char>) -> Seq<char>
    decreases s.len(),
{
    if s.len() > 0 && s.last() == '/' {
        unslashed(s.drop_last())
    } else {
        s
    }
}

/// Where a path leads. Every candidate is a key, never a path on disk:
/// `/about` tries itself, `/about.html`, then `/about/index.html`, which is only
/// reported, because its base directory is another; `/about/` tries
/// `/about/index.html`, then `/about.html`.
pub open spec fn found(cache: Map<Seq<char>, Cached>, decoded: Seq<char>) -> Option<FoundModel> {
    if decoded.len() > 0 && decoded.last() == '/' {
        let bare = unslashed(decoded);
        if cache.contains_key(decoded + "index.html"@) {
            Some(FoundModel::Entry(decoded + "index.html"@))
        } else if bare.len() > 0 && cache.contains_key(bare + ".html"@) {
            Some(FoundModel::Entry(bare + ".html"@))
        } else {
            None
        }
    } else if cache.contains_key(decoded) {
        Some(FoundModel::Entry(decoded))
    } else if cache.contains_key(decoded + ".html"@) {
        Some(FoundModel::Entry(decoded + ".html"@))
    } else if cache.contains_key(decoded + "/index.html"@) {
        Some(FoundModel::DirIndex)
    } else {
        None
    }
}

/// What a request path resolved to.
pub enum Resolved<'a> {
    /// Servable at the requested URL.
    Entry(&'a Cached),
    /// To be redirected to the form with the trailing slash, or every relative
    /// reference in the document would resolve one level too high.
    DirIndex,
}

fn with_suffix(s: &[char], suffix: &str) -> (r: String)
    ensures
        r@ == s@ + suffix@,
{
    let mut t = string_of(s);
    t.append(suffix);
    t
}

/// Maps a request path to a cache entry, clean URLs among them.
pub fn resolve<'a>(cache: &'a SiteCache, decoded: &str) -> (r: Option<Resolved<'a>>)
    ensures
        match (r, found(cache@, decoded@)) {
            (Some(Resolved::Entry(e)), Some(FoundModel::Entry(k))) => cache@.contains_key(k)
                && *e == cache@[k],
            (Some(Resolved::DirIndex), Some(FoundModel::DirIndex)) => true,
            (None, None) => true,
            _ => false,
        },
{
    let chars = chars_of(decoded);
    let d = chars.as_slice();
    if d.len() > 0 && d[d.len() - 1] == '/' {
        if let Some(e) = cache.get(with_suffix(d, "index.html").as_str()) {
            return Some(Resolved::Entry(e));
        }
        let mut n: usize = d.len();
        assert(d@.take(d.len() as int) == d@);
        while n > 0 && d[n - 1] == '/'
            invariant
                0 <= n <= d.len(),
                unslashed(d@.take(n as int)) == unslashed(d@),
            decreases n,
        {
            assert(d@.take(n as int).drop_last() == d@.take(n - 1));
            n = n - 1;
        }
        if n > 0 {
            if let Some(e) = cache.get(with_suffix(slice_subrange(d, 0, n), ".html").as_str()) {
                return Some(Resolved::Entry(e));
            }
        }
        None
    } else {
        if let Some(e) = cache.get(decoded) {
            return Some(Resolved::Entry(e));
        }
        if let Some(e) = cache.get(with_suffix(d, ".html").as_str()) {
            return Some(Resolved::Entry(e));
        }
        match cache.get(with_suffix(d, "/index.html").as_str()) {
            Some(_) => Some(Resolved::DirIndex),
            None => None,
        }
    }
}

/// Which encoding a client gets of those there are: brotli, then gzip, then the
/// file as it is.
pub enum Choice {
    Br,
    Gzip,
    Identity,
}

/// The encoding that a client gets.
pub open spec fn choice_of(accept_enc: Seq<char>, has_br: bool, has_gzip: bool) -> Choice {
    if has_br && accepts(accept_enc, "br"@) {
        Choice::Br
    } else if has_gzip && accepts(accept_enc, "gzip"@) {
        Choice::Gzip
    } else {
        Choice::Identity
    }
}

fn choose_encoding(accept_enc: &str, has_br: bool, has_gzip: bool) -> (r: Choice)
    ensures
        r == choice_of(accept_enc@, has_br, has_gzip),
{
    if has_br && accepts_encoding(accept_enc, "br") {
        Choice::Br
    } else if has_gzip && accepts_encoding(accept_enc, "gzip") {
        Choice::Gzip
    } else {
        Choice::Identity
    }
}

/// The variant that a client gets of an entry in memory.
pub open spec fn mem_choice(e: MemEntry, accept_enc: Seq<char>) -> Variant {
    match choice_of(accept_enc, e.br is Some, e.gzip is Some) {
        Choice::Br => e.br->0,
        Choice::Gzip => e.gzip->0,
        Choice::Identity => e.identity,
    }
}

/// The variant that a client gets of an entry on disk.
pub open spec fn disk_choice(e: DiskEntry, accept_enc: Seq<char>) -> DiskVariant {
    match choice_of(accept_enc, e.br is Some, e.gzip is Some) {
        Choice::Br => e.br->0,
        Choice::Gzip => e.gzip->0,
        Choice::Identity => e.identity,
    }
}

/// A header with its `Connection: keep-alive` made `Connection: close`.
pub open spec fn closing_header(head: Seq<u8>) -> Seq<u8> {
    let keep = encode_utf8("Connection: keep-alive"@);
    match first_run(head, keep) {
        Some(i) => head.take(i) + encode_utf8("Connection: close"@) + head.skip(
            i + keep.len() as int,
        ),
        None => head,
    }
}

fn close_header(head: &[u8]) -> (r: Vec<u8>)
    ensures
        r@ == closing_header(head@),
{
    let keep = "Connection: keep-alive".as_bytes();
    proof {
        reveal_strlit("Connection: keep-alive");
        crate::text::lemma_encode_len("Connection: keep-alive"@);
    }
    let mut out: Vec<u8> = Vec::new();
    match find(head, keep) {
        Some(i) => {
            out.extend_from_slice(slice_subrange(head, 0, i));
            out.extend_from_slice("Connection: close".as_bytes());
            let end: usize = head.len();
            out.extend_from_slice(slice_subrange(head, i + keep.len(), end));
        },
        None => {
            out.extend_from_slice(head);
        },
    }
    assert(out@ =~= closing_header(head@));
    out
}

/// The answer for an entry in memory.
pub open spec fn mem_reply(
    e: MemEntry,
    accept_enc: Seq<char>,
    inm: Seq<char>,
    keep_alive: bool,
    is_head: bool,
    security: Seq<char>,
) -> ReplyModel {
    let v = mem_choice(e, accept_enc);
    if inm.len() > 0 && lists_tag(inm, v.etag@) {
        one_write(
            encode_utf8(
                not_modified_text(
                    v.etag@,
                    encoding_text(v.encoding),
                    e.vary,
                    e.cache_control@,
                    keep_alive,
                    security,
                ),
            ),
            keep_alive,
        )
    } else if keep_alive {
        one_write(
            if is_head {
                v.head()
            } else {
                v.full_ka@
            },
            true,
        )
    } else if is_head {
        one_write(closing_header(v.head()), false)
    } else {
        ReplyModel::Send { writes: seq![closing_header(v.head()), v.body()], keep_alive: false }
    }
}

/// Serves an entry in memory: the best encoding there is, as the one buffer it
/// was built as.
pub fn serve_mem<'a>(
    entry: &'a MemEntry,
    accept_enc: &str,
    inm: &str,
    keep_alive: bool,
    is_head: bool,
    hdrs: &str,
) -> (r: Reply<'a>)
    requires
        Cached::Mem(*entry).wf(),
    ensures
        r@ == mem_reply(*entry, accept_enc@, inm@, keep_alive, is_head, hdrs@),
{
    let choice = choose_encoding(accept_enc, entry.br.is_some(), entry.gzip.is_some());
    let variant: &Variant = match (choice, &entry.br, &entry.gzip) {
        (Choice::Br, Some(v), _) => v,
        (Choice::Gzip, _, Some(v)) => v,
        _ => &entry.identity,
    };
    assert(*variant == mem_choice(*entry, accept_enc@));
    if chars_of(inm).len() > 0 && inm_matches(inm, variant.etag.as_str()) {
        return send_304(
            variant.etag.as_str(),
            variant.encoding,
            entry.vary,
            entry.cache_control.as_str(),
            keep_alive,
            hdrs,
        );
    }
    let full = variant.full_ka.as_slice();
    if keep_alive {
        if is_head {
            Reply::Ready { page: slice_subrange(full, 0, variant.header_len), keep_alive: true }
        } else {
            Reply::Ready { page: full, keep_alive: true }
        }
    } else {
        let head = close_header(slice_subrange(full, 0, variant.header_len));
        if is_head {
            Reply::Built { bytes: head, keep_alive: false }
        } else {
            Reply::Split {
                head,
                body: slice_subrange(full, variant.header_len, full.len()),
                keep_alive: false,
            }
        }
    }
}

/// The answer for an entry on disk.
pub open spec fn disk_reply(
    e: DiskEntry,
    accept_enc: Seq<char>,
    inm: Seq<char>,
    keep_alive: bool,
    is_head: bool,
    site: usize,
    policy: Policy,
) -> ReplyModel {
    let v = disk_choice(e, accept_enc);
    let head = if keep_alive {
        v.header_ka@
    } else {
        closing_header(v.header_ka@)
    };
    if inm.len() > 0 && lists_tag(inm, v.etag@) {
        one_write(
            encode_utf8(
                not_modified_text(
                    v.etag@,
                    encoding_text(v.encoding),
                    e.vary,
                    e.cache_control@,
                    keep_alive,
                    policy.security_headers@,
                ),
            ),
            keep_alive,
        )
    } else if is_head {
        one_write(head, keep_alive)
    } else {
        ReplyModel::File {
            site,
            head,
            path: v.path@,
            len: v.len,
            keep_alive,
            missing: policy.errors.internal_error.wire(false, false),
        }
    }
}

/// Serves an entry on disk: the best encoding there is, its header and where its
/// body lies.
pub fn serve_disk<'a>(
    entry: &'a DiskEntry,
    accept_enc: &str,
    inm: &str,
    keep_alive: bool,
    is_head: bool,
    site: usize,
    policy: &'a Policy,
) -> (r: Reply<'a>)
    requires
        Cached::Disk(*entry).wf(),
    ensures
        r@ == disk_reply(*entry, accept_enc@, inm@, keep_alive, is_head, site, *policy),
{
    let choice = choose_encoding(accept_enc, entry.br.is_some(), entry.gzip.is_some());
    let variant: &DiskVariant = match (choice, &entry.br, &entry.gzip) {
        (Choice::Br, Some(v), _) => v,
        (Choice::Gzip, _, Some(v)) => v,
        _ => &entry.identity,
    };
    assert(*variant == disk_choice(*entry, accept_enc@));
    if chars_of(inm).len() > 0 && inm_matches(inm, variant.etag.as_str()) {
        return send_304(
            variant.etag.as_str(),
            variant.encoding,
            entry.vary,
            entry.cache_control.as_str(),
            keep_alive,
            policy.security_headers.as_str(),
        );
    }
    if is_head && keep_alive {
        return Reply::Ready { page: variant.header_ka.as_slice(), keep_alive };
    }
    let mut head: Vec<u8> = Vec::new();
    if keep_alive {
        head.extend_from_slice(variant.header_ka.as_slice());
        assert(head@ =~= variant.header_ka@);
    } else {
        head = close_header(variant.header_ka.as_slice());
    }
    if is_head {
        return Reply::Built { bytes: head, keep_alive };
    }
    Reply::File {
        site,
        head,
        path: variant.path.as_str(),
        len: variant.len,
        keep_alive,
        missing: policy.errors.internal_error.bytes(false, false),
    }
}

// --------------------------------------------------------- challenge tokens

/// A character of the token alphabet, which holds neither a slash nor a dot.
pub open spec fn is_token_char(c: char) -> bool {
    ||| 0x30 <= c as u32 <= 0x39
    ||| 0x41 <= c as u32 <= 0x5a
    ||| 0x61 <= c as u32 <= 0x7a
    ||| c == '-'
    ||| c == '_'
}

/// A challenge token: a single path segment of the token alphabet.
pub open spec fn is_token(s: Seq<char>) -> bool {
    0 < s.len() <= ACME_TOKEN_MAX_LEN && forall|i: int|
        0 <= i < s.len() ==> is_token_char(#[trigger] s[i])
}

/// Decides [`is_token`].
pub fn well_formed_token(s: &[char]) -> (r: bool)
    ensures
        r == is_token(s@),
{
    if s.len() == 0 || s.len() > ACME_TOKEN_MAX_LEN {
        return false;
    }
    let mut i: usize = 0;
    while i < s.len()
        invariant
            0 <= i <= s.len(),
            0 < s.len() <= ACME_TOKEN_MAX_LEN,
            forall|j: int| 0 <= j < i ==> is_token_char(#[trigger] s@[j]),
        decreases s.len() - i,
    {
        let c = s[i];
        let u: u32 = c as u32;
        if !((0x30 <= u && u <= 0x39) || (0x41 <= u && u <= 0x5a) || (0x61 <= u && u <= 0x7a) || c
            == '-' || c == '_') {
            assert(!is_token_char(s@[i as int]));
            return false;
        }
        i = i + 1;
    }
    true
}

/// Whether an open file may be sent as a token: a regular file of one link, for a
/// second one may lead to a file outside the root, and no larger than a token is.
pub fn sendable_token(is_file: bool, links: u64, len: u64) -> (r: bool)
    ensures
        r == (is_file && links == 1 && len <= ACME_TOKEN_MAX_BYTES),
        r ==> is_file && links == 1 && len <= 4096,
        is_file && links == 1 && len <= 4096 ==> r,
{
    is_file && links == 1 && len <= ACME_TOKEN_MAX_BYTES
}

/// The header block of a challenge answer. The token is single-use, so nothing
/// stores it.
pub open spec fn token_head(len: nat, keep_alive: bool, security: Seq<char>) -> Seq<char> {
    "HTTP/1.1 200 OK\r\nContent-Type: text/plain; charset=utf-8\r\nContent-Length: "@ + dec_text(len)
        + "\r\nCache-Control: no-store\r\nConnection: "@ + connection_word(keep_alive) + "\r\n"@
        + security + "\r\n"@
}

/// The answer for a token that was read, or that could not be.
pub open spec fn token_answer(
    body: Option<Seq<u8>>,
    keep_alive: bool,
    is_head: bool,
    policy: Policy,
) -> ReplyModel {
    match body {
        None => refusal(policy.errors.not_found, keep_alive, is_head),
        Some(b) => {
            let head = encode_utf8(token_head(b.len(), keep_alive, policy.security_headers@));
            one_write(
                if is_head {
                    head
                } else {
                    head + b
                },
                keep_alive,
            )
        },
    }
}

/// Answers with a challenge token that was read, or that could not be. One
/// write, like every other answer.
pub fn token_reply<'a>(
    body: Option<Vec<u8>>,
    keep_alive: bool,
    is_head: bool,
    policy: &'a Policy,
) -> (r: Reply<'a>)
    ensures
        r@ == token_answer(
            match body {
                Some(b) => Some(b@),
                None => None,
            },
            keep_alive,
            is_head,
            *policy,
        ),
{
    match body {
        None => send_error(&policy.errors.not_found, keep_alive, is_head),
        Some(b) => {
            let mut s =
                "HTTP/1.1 200 OK\r\nContent-Type: text/plain; charset=utf-8\r\nContent-Length: ".to_string();
            push_dec(&mut s, b.len() as u64);
            s.append("\r\nCache-Control: no-store\r\nConnection: ");
            push_connection(&mut s, keep_alive);
            s.append("\r\n");
            s.append(policy.security_headers.as_str());
            s.append("\r\n");
            let mut bytes: Vec<u8> = Vec::new();
            bytes.extend_from_slice(s.as_str().as_bytes());
            assert(bytes@ =~= encode_utf8(s@));
            if !is_head {
                bytes.extend_from_slice(b.as_slice());
                assert(bytes@ =~= encode_utf8(s@) + b@);
            }
            Reply::Built { bytes, keep_alive }
        },
    }
}

/// The answer on the challenge prefix; `rest` is what follows it. A site with no
/// root has nowhere to read a token from.
pub open spec fn challenge_reply(
    rest: Seq<char>,
    site_index: usize,
    site: Site,
    keep_alive: bool,
    is_head: bool,
) -> ReplyModel {
    match site.root {
        Some(root) => if is_token(rest) {
            ReplyModel::Token { site: site_index, root: root@, token: rest, keep_alive, is_head }
        } else {
            refusal(site.policy.errors.not_found, keep_alive, is_head)
        },
        None => refusal(site.policy.errors.not_found, keep_alive, is_head),
    }
}

/// Decides what a challenge request is answered with. A token that is not one
/// never becomes a path on disk.
pub fn serve_acme_token<'a>(
    rest: &[char],
    site_index: usize,
    site: &'a Site,
    keep_alive: bool,
    is_head: bool,
) -> (r: Reply<'a>)
    ensures
        r@ == challenge_reply(rest@, site_index, *site, keep_alive, is_head),
{
    match &site.root {
        Some(root) => {
            if well_formed_token(rest) {
                return Reply::Token {
                    site: site_index,
                    root: root.as_str(),
                    token: string_of(rest),
                    keep_alive,
                    is_head,
                };
            }
        },
        None => {},
    }
    send_error(&site.policy.errors.not_found, keep_alive, is_head)
}

// -------------------------------------------------------------------- routing

/// The path of a target, decoded: the one spelling by which everything but the
/// redirect rules knows it.
pub open spec fn decoded_path(path: Seq<char>) -> Option<Seq<char>> {
    match decoded_bytes(encode_utf8(path)) {
        None => None,
        Some(b) => text_of(b),
    }
}

fn decode_path(path: &str) -> (r: Option<String>)
    ensures
        match r {
            Some(d) => decoded_path(path@) == Some(d@),
            None => decoded_path(path@) is None,
        },
{
    match percent_decode(path) {
        None => None,
        Some(b) => match read_text(b.as_slice()) {
            None => None,
            Some(s) => Some(s.to_string()),
        },
    }
}

/// The query of a target with its question mark, or nothing.
pub open spec fn query_of(target: Seq<char>) -> Seq<char> {
    match first_of(target, '?') {
        Some(i) => target.skip(i),
        None => seq![],
    }
}

fn query_part(target: &[char]) -> (r: &[char])
    ensures
        r@ == query_of(target@),
{
    match find_char(target, '?') {
        Some(i) => slice_subrange(target, i, target.len()),
        None => {
            let end = slice_subrange(target, target.len(), target.len());
            assert(end@ =~= seq![]);
            end
        },
    }
}

/// The origin that a redirect on this host names: over plain HTTP only where the
/// site is served there.
pub open spec fn origin_of(v: Vhosts, site: Site, host: Seq<char>, plain: bool) -> Seq<char> {
    if plain && !site.force_ssl {
        "http://"@ + authority_of(host, v.http_port@, "80"@)
    } else {
        "https://"@ + authority_of(host, v.https_port@, "443"@)
    }
}

/// The fragment of a URL with its number sign, or nothing.
pub open spec fn fragment_of(url: Seq<char>) -> Seq<char> {
    match first_of(url, '#') {
        Some(i) => url.skip(i),
        None => seq![],
    }
}

/// A rule's target with the query of the request. A target that has a query of
/// its own keeps it; otherwise the request's goes before the fragment, which it
/// would be a part of behind it.
pub open spec fn with_query(to: Seq<char>, query: Seq<char>) -> Seq<char> {
    if up_to(to, '#').contains('?') {
        to
    } else {
        up_to(to, '#') + query + fragment_of(to)
    }
}

/// Where a rule's target leads: an absolute URL as it is, a path on this host's
/// origin. The query is carried over unless the target has one of its own.
pub open spec fn location_of(to: Seq<char>, origin: Seq<char>, query: Seq<char>) -> Seq<char> {
    if is_absolute(to) {
        with_query(to, query)
    } else {
        origin + with_query(to, query)
    }
}

fn locate(to: &str, origin: &str, query: &[char]) -> (r: String)
    ensures
        r@ == location_of(to@, origin@, query@),
{
    let t = chars_of(to);
    let mut s = String::new();
    if !absolute(t.as_slice()) {
        s.append(origin);
        assert(s@ =~= origin@);
    }
    let ghost front = s@;
    let base = take_up_to(t.as_slice(), '#');
    if has_char(base, '?') {
        s.append(to);
    } else {
        push_chars(&mut s, base);
        push_chars(&mut s, query);
        if let Some(i) = find_char(t.as_slice(), '#') {
            push_chars(&mut s, slice_subrange(t.as_slice(), i, t.len()));
        }
    }
    assert(s@ =~= front + with_query(to@, query@));
    s
}

/// What is answered with content, or with its absence.
pub open spec fn content_reply(
    site_index: usize,
    site: Site,
    cache: Map<Seq<char>, Cached>,
    decoded: Seq<char>,
    origin: Seq<char>,
    query: Seq<char>,
    rq: RequestModel,
    keep_alive: bool,
) -> ReplyModel {
    let security = site.policy.security_headers@;
    match found(cache, decoded) {
        None => refusal(site.policy.errors.not_found, keep_alive, rq.is_head),
        Some(FoundModel::DirIndex) => one_write(
            encode_utf8(
                redirect_text(
                    origin + encoded_path(encode_utf8(decoded)) + "/"@ + query,
                    keep_alive,
                    security,
                ),
            ),
            keep_alive,
        ),
        Some(FoundModel::Entry(k)) => match cache[k] {
            Cached::Mem(m) => mem_reply(
                m,
                rq.accept_enc,
                rq.inm,
                keep_alive,
                rq.is_head,
                security,
            ),
            Cached::Disk(d) => disk_reply(
                d,
                rq.accept_enc,
                rq.inm,
                keep_alive,
                rq.is_head,
                site_index,
                site.policy,
            ),
        },
    }
}

/// What a site answers. The rules come first, then the canonical shape of the
/// URL, then the upgrade to HTTPS, then content; the challenge prefix is exempt
/// from every redirect.
pub open spec fn site_reply(
    v: Vhosts,
    site_index: usize,
    cache: Map<Seq<char>, Cached>,
    host: Seq<char>,
    rq: RequestModel,
    keep_alive: bool,
    plain: bool,
) -> ReplyModel {
    let site = v.sites@[site_index as int];
    let security = site.policy.security_headers@;
    let path = up_to(rq.target, '?');
    if !rq.is_get && !rq.is_head {
        refusal(site.policy.errors.method_not_allowed, keep_alive, rq.is_head)
    } else if path.len() == 0 || path[0] != '/' || encode_utf8(path).len() >= MAX_PATH_LEN {
        refusal(site.policy.errors.bad_request, false, rq.is_head)
    } else {
        match decoded_path(path) {
            None => refusal(site.policy.errors.bad_request, false, rq.is_head),
            Some(decoded) => {
                let query = query_of(rq.target);
                let origin = origin_of(v, site, host, plain);
                if ACME_PREFIX@.is_prefix_of(decoded) {
                    challenge_reply(
                        decoded.skip(ACME_PREFIX@.len() as int),
                        site_index,
                        site,
                        keep_alive,
                        rq.is_head,
                    )
                } else if redirect_of(site.redirects@, path) is Some {
                    one_write(
                        encode_utf8(
                            redirect_text(
                                location_of(redirect_of(site.redirects@, path)->0, origin, query),
                                keep_alive,
                                security,
                            ),
                        ),
                        keep_alive,
                    )
                } else if site.canonical_urls && canonical_of(decoded) is Some {
                    one_write(
                        encode_utf8(
                            redirect_text(
                                origin + encoded_path(encode_utf8(canonical_of(decoded)->0)) + query,
                                keep_alive,
                                security,
                            ),
                        ),
                        keep_alive,
                    )
                } else if plain && site.force_ssl {
                    one_write(
                        encode_utf8(redirect_text(origin + rq.target, keep_alive, security)),
                        keep_alive,
                    )
                } else {
                    content_reply(
                        site_index,
                        site,
                        cache,
                        decoded,
                        origin,
                        query,
                        rq,
                        keep_alive,
                    )
                }
            },
        }
    }
}

/// The site that a host name leads to, where the connection was made for it. The
/// certificate comes from the server name, everything else from the `Host`; where
/// they disagree, the host is as good as unknown.
pub open spec fn site_for(v: Vhosts, host: Seq<char>, sni: Option<Seq<char>>) -> Option<usize> {
    if (sni matches Some(name) && name != host) || !v.names@.contains_key(host) {
        None
    } else {
        Some(v.names@[host])
    }
}

/// What a request head is answered with. Every `Location` is built from the host
/// name in the table, never from the header.
pub open spec fn reply_of(
    head: Seq<u8>,
    v: Vhosts,
    caches: Seq<Arc<SiteCache>>,
    want_ka: bool,
    plain: bool,
    sni: Option<Seq<char>>,
) -> ReplyModel {
    match request_of(head) {
        Err(is_head) => refusal(v.errors.bad_request, false, is_head),
        Ok(rq) => {
            let keep_alive = rq.keep_alive && want_ka;
            let host = host_key_of(rq.host);
            match site_for(v, host, sni) {
                None => refusal(v.errors.not_found, keep_alive, rq.is_head),
                Some(i) => site_reply(v, i, caches[i as int]@, host, rq, keep_alive, plain),
            }
        },
    }
}

fn origin(v: &Vhosts, site: &Site, host: &str, plain: bool) -> (r: String)
    ensures
        r@ == origin_of(*v, *site, host@, plain),
{
    let mut s = if plain && !site.force_ssl {
        "http://".to_string()
    } else {
        "https://".to_string()
    };
    let authority = if plain && !site.force_ssl {
        redirect_authority(host, v.http_port.as_str(), "80")
    } else {
        redirect_authority(host, v.https_port.as_str(), "443")
    };
    s.append(authority.as_str());
    s
}

fn serve_content<'a>(
    site_index: usize,
    site: &'a Site,
    cache: &'a SiteCache,
    decoded: &str,
    origin: &str,
    query: &[char],
    rq: &Request,
    keep_alive: bool,
) -> (r: Reply<'a>)
    requires
        cache.wf(),
    ensures
        r@ == content_reply(
            site_index,
            *site,
            cache@,
            decoded@,
            origin@,
            query@,
            rq@,
            keep_alive,
        ),
{
    let hdrs = site.policy.security_headers.as_str();
    match resolve(cache, decoded) {
        None => send_error(&site.policy.errors.not_found, keep_alive, rq.is_head),
        Some(Resolved::DirIndex) => {
            let mut location = origin.to_string();
            location.append(percent_encode_path(decoded).as_str());
            location.append("/");
            push_chars(&mut location, query);
            send_redirect(location.as_str(), keep_alive, hdrs)
        },
        Some(Resolved::Entry(e)) => match e {
            Cached::Mem(m) => serve_mem(
                m,
                rq.accept_enc.as_str(),
                rq.inm.as_str(),
                keep_alive,
                rq.is_head,
                hdrs,
            ),
            Cached::Disk(d) => serve_disk(
                d,
                rq.accept_enc.as_str(),
                rq.inm.as_str(),
                keep_alive,
                rq.is_head,
                site_index,
                &site.policy,
            ),
        },
    }
}

fn serve_site<'a>(
    v: &'a Vhosts,
    site_index: usize,
    cache: &'a SiteCache,
    host: &str,
    rq: &Request,
    keep_alive: bool,
    plain: bool,
) -> (r: Reply<'a>)
    requires
        site_index < v.sites@.len(),
        cache.wf(),
    ensures
        r@ == site_reply(*v, site_index, cache@, host@, rq@, keep_alive, plain),
{
    let site = &v.sites[site_index];
    let errors = &site.policy.errors;
    let hdrs = site.policy.security_headers.as_str();
    if !rq.is_get && !rq.is_head {
        return send_error(&errors.method_not_allowed, keep_alive, rq.is_head);
    }
    let target = chars_of(rq.target.as_str());
    let p = take_up_to(target.as_slice(), '?');
    let path = string_of(p);
    if p.len() == 0 || p[0] != '/' || byte_len(path.as_str()) >= MAX_PATH_LEN {
        return send_error(&errors.bad_request, false, rq.is_head);
    }
    let decoded = match decode_path(path.as_str()) {
        Some(d) => d,
        None => return send_error(&errors.bad_request, false, rq.is_head),
    };
    let query = query_part(target.as_slice());
    let origin = origin(v, site, host, plain);
    let chars = chars_of(decoded.as_str());
    if let Some(rest) = strip_word(chars.as_slice(), ACME_PREFIX) {
        return serve_acme_token(rest, site_index, site, keep_alive, rq.is_head);
    }
    if let Some(to) = site.redirects.resolve(path.as_str()) {
        let location = locate(to.as_str(), origin.as_str(), query);
        return send_redirect(location.as_str(), keep_alive, hdrs);
    }
    if site.canonical_urls {
        if let Some(canon) = canonical_form(decoded.as_str()) {
            let mut location = origin.clone();
            location.append(percent_encode_path(canon.as_str()).as_str());
            push_chars(&mut location, query);
            return send_redirect(location.as_str(), keep_alive, hdrs);
        }
    }
    if plain && site.force_ssl {
        let mut location = origin.clone();
        location.append(rq.target.as_str());
        return send_redirect(location.as_str(), keep_alive, hdrs);
    }
    serve_content(
        site_index,
        site,
        cache,
        decoded.as_str(),
        origin.as_str(),
        query,
        rq,
        keep_alive,
    )
}

/// Answers one request head. `caches` holds one cache per site, in the order of
/// the sites. `redirect_https` is set on the plain listener. `sni` is the name
/// that the handshake chose a certificate for, or `None` on the plain listener.
pub fn handle_request<'a>(
    head: &[u8],
    vhosts: &'a Vhosts,
    caches: &'a Vec<Arc<SiteCache>>,
    want_ka: bool,
    redirect_https: bool,
    sni: Option<&str>,
) -> (r: Reply<'a>)
    requires
        vhosts.wf(),
        caches@.len() == vhosts.sites@.len(),
        forall|i: int| 0 <= i < caches@.len() ==> (#[trigger] caches@[i]).wf(),
    ensures
        r@ == reply_of(
            head@,
            *vhosts,
            caches@,
            want_ka,
            redirect_https,
            match sni {
                Some(s) => Some(s@),
                None => None,
            },
        ),
{
    let rq = match parse_request(head) {
        Ok(rq) => rq,
        Err(is_head) => return send_error(&vhosts.errors.bad_request, false, is_head),
    };
    let keep_alive = rq.keep_alive && want_ka;
    let host = normalize_host(rq.host.as_str());
    if let Some(name) = sni {
        if !same_str(name, host.as_str()) {
            return send_error(&vhosts.errors.not_found, keep_alive, rq.is_head);
        }
    }
    match vhosts.names.get(host.as_str()) {
        None => send_error(&vhosts.errors.not_found, keep_alive, rq.is_head),
        Some(i) => {
            let index: usize = *i;
            assert(caches@[index as int].wf());
            serve_site(
                vhosts,
                index,
                &caches[index],
                host.as_str(),
                &rq,
                keep_alive,
                redirect_https,
            )
        },
    }
}

// ----------------------------------------------------------------------- laws

/// The `Location` that a site answers a well-formed request with, where it
/// redirects it.
pub open spec fn location_for(
    v: Vhosts,
    site: Site,
    cache: Map<Seq<char>, Cached>,
    host: Seq<char>,
    target: Seq<char>,
    decoded: Seq<char>,
    plain: bool,
) -> Option<Seq<char>> {
    let path = up_to(target, '?');
    let query = query_of(target);
    let origin = origin_of(v, site, host, plain);
    if ACME_PREFIX@.is_prefix_of(decoded) {
        None
    } else if redirect_of(site.redirects@, path) is Some {
        Some(location_of(redirect_of(site.redirects@, path)->0, origin, query))
    } else if site.canonical_urls && canonical_of(decoded) is Some {
        Some(origin + encoded_path(encode_utf8(canonical_of(decoded)->0)) + query)
    } else if plain && site.force_ssl {
        Some(origin + target)
    } else if found(cache, decoded) == Some(FoundModel::DirIndex) {
        Some(origin + encoded_path(encode_utf8(decoded)) + "/"@ + query)
    } else {
        None
    }
}

/// A request that a site looks at the path of.
pub open spec fn is_sound_request(rq: RequestModel) -> bool {
    let path = up_to(rq.target, '?');
    &&& rq.is_get || rq.is_head
    &&& path.len() > 0
    &&& path[0] == '/'
    &&& encode_utf8(path).len() < MAX_PATH_LEN
    &&& decoded_path(path) is Some
}

/// Every redirect is a `301 Moved Permanently` in one write, whichever rule it
/// comes from.
pub proof fn law_every_redirect_is_permanent(
    v: Vhosts,
    site_index: usize,
    cache: Map<Seq<char>, Cached>,
    host: Seq<char>,
    rq: RequestModel,
    keep_alive: bool,
    plain: bool,
)
    requires
        is_sound_request(rq),
    ensures
        ({
            let site = v.sites@[site_index as int];
            let decoded = decoded_path(up_to(rq.target, '?'))->0;
            match location_for(v, site, cache, host, rq.target, decoded, plain) {
                Some(location) => {
                    let text = redirect_text(location, keep_alive, site.policy.security_headers@);
                    &&& site_reply(v, site_index, cache, host, rq, keep_alive, plain) == one_write(
                        encode_utf8(text),
                        keep_alive,
                    )
                    &&& ("HTTP/1.1 301 Moved Permanently\r\nLocation: "@
                        + location).is_prefix_of(text)
                },
                None => true,
            }
        }),
{
    let site = v.sites@[site_index as int];
    let decoded = decoded_path(up_to(rq.target, '?'))->0;
    if let Some(location) = location_for(v, site, cache, host, rq.target, decoded, plain) {
        let text = redirect_text(location, keep_alive, site.policy.security_headers@);
        let front = "HTTP/1.1 301 Moved Permanently\r\nLocation: "@ + location;
        assert(front =~= text.take(front.len() as int));
    }
}

/// The characters of an encoded path are printable ASCII.
proof fn lemma_encoded_path_is_control_free(bytes: Seq<u8>)
    ensures
        control_free(encoded_path(bytes)),
    decreases bytes.len(),
{
    if bytes.len() > 0 {
        lemma_encoded_path_is_control_free(bytes.drop_last());
        let front = encoded_path(bytes.drop_last());
        let b = bytes.last();
        let piece = encoded_byte(b);
        assert forall|i: int| 0 <= i < piece.len() implies !is_control(#[trigger] piece[i]) by {}
        assert forall|i: int| 0 <= i < (front + piece).len() implies !is_control(
            #[trigger] (front + piece)[i],
        ) by {
            if i >= front.len() {
                assert((front + piece)[i] == piece[i - front.len()]);
            }
        }
    }
}

/// A redirect injects nothing into its header: where the rules of a site are
/// sound, and neither the host name nor the ports hold a control character, no
/// `Location` does, whatever target was asked for.
pub proof fn law_location_is_control_free(
    v: Vhosts,
    site: Site,
    cache: Map<Seq<char>, Cached>,
    host: Seq<char>,
    target: Seq<char>,
    decoded: Seq<char>,
    plain: bool,
)
    requires
        is_sound(site.redirects@),
        control_free(host),
        control_free(v.http_port@),
        control_free(v.https_port@),
        control_free(target),
    ensures
        location_for(v, site, cache, host, target, decoded, plain) matches Some(location)
            ==> control_free(location),
{
    reveal_strlit("http://");
    reveal_strlit("https://");
    reveal_strlit(":");
    reveal_strlit("/");
    let path = up_to(target, '?');
    let query = query_of(target);
    lemma_first_of(target, '?');
    assert(control_free(path));
    assert(control_free(query));
    let origin = origin_of(v, site, host, plain);
    assert(control_free(origin));
    law_redirect_is_control_free(site.redirects@, path);
    if let Some(to) = redirect_of(site.redirects@, path) {
        lemma_first_of(to, '#');
        assert(control_free(up_to(to, '#')));
        assert(control_free(fragment_of(to)));
        assert(control_free(with_query(to, query)));
    }
    lemma_encoded_path_is_control_free(encode_utf8(decoded));
    if canonical_of(decoded) is Some {
        lemma_encoded_path_is_control_free(encode_utf8(canonical_of(decoded)->0));
    }
}

/// A text without control characters stays on its line.
proof fn lemma_control_free_no_cr(s: Seq<char>)
    requires
        control_free(s),
    ensures
        no_cr(s),
{
    assert forall|i: int| 0 <= i < s.len() implies #[trigger] s[i] != '\r' by {
        assert(!is_control(s[i]));
    }
}

/// A `Location` stays on its line, where the host name and the ports do.
pub proof fn lemma_location_stays_on_its_line(
    v: Vhosts,
    site: Site,
    cache: Map<Seq<char>, Cached>,
    host: Seq<char>,
    target: Seq<char>,
    decoded: Seq<char>,
    plain: bool,
)
    requires
        is_sound(site.redirects@),
        no_cr(host),
        no_cr(v.http_port@),
        no_cr(v.https_port@),
        control_free(target),
    ensures
        location_for(v, site, cache, host, target, decoded, plain) matches Some(location) ==> no_cr(
            location,
        ),
{
    reveal_strlit("http://");
    reveal_strlit("https://");
    reveal_strlit(":");
    reveal_strlit("/");
    let path = up_to(target, '?');
    let query = query_of(target);
    lemma_first_of(target, '?');
    assert(control_free(path));
    assert(control_free(query));
    lemma_control_free_no_cr(target);
    lemma_control_free_no_cr(query);
    let origin = origin_of(v, site, host, plain);
    assert(no_cr(origin));
    law_redirect_is_control_free(site.redirects@, path);
    if let Some(to) = redirect_of(site.redirects@, path) {
        lemma_control_free_no_cr(to);
        lemma_first_of(to, '#');
        assert(no_cr(up_to(to, '#')));
        assert(no_cr(fragment_of(to)));
        assert(no_cr(with_query(to, query)));
    }
    lemma_encoded_path_is_control_free(encode_utf8(decoded));
    lemma_control_free_no_cr(encoded_path(encode_utf8(decoded)));
    if let Some(c) = canonical_of(decoded) {
        lemma_encoded_path_is_control_free(encode_utf8(c));
        lemma_control_free_no_cr(encoded_path(encode_utf8(c)));
    }
}

/// A certificate answers for its own name only: where a request's host is not the
/// one the connection was made for, or is no host of the table, the answer is the
/// server's 404.
pub proof fn law_a_foreign_host_is_not_found(
    head: Seq<u8>,
    v: Vhosts,
    caches: Seq<Arc<SiteCache>>,
    want_ka: bool,
    plain: bool,
    sni: Option<Seq<char>>,
)
    ensures
        request_of(head) matches Ok(rq) ==> {
            let host = host_key_of(rq.host);
            (sni is Some && sni->0 != host) || !v.names@.contains_key(host) ==> reply_of(
                head,
                v,
                caches,
                want_ka,
                plain,
                sni,
            ) == refusal(v.errors.not_found, rq.keep_alive && want_ka, rq.is_head)
        },
{
}

/// Nothing stands between a certificate authority and a challenge: on its prefix
/// neither the rules, nor the canonical form, nor the upgrade to HTTPS, nor the
/// content of the site matters.
pub proof fn law_challenges_are_exempt_from_redirects(
    v: Vhosts,
    site_index: usize,
    cache: Map<Seq<char>, Cached>,
    host: Seq<char>,
    rq: RequestModel,
    keep_alive: bool,
    plain: bool,
)
    requires
        is_sound_request(rq),
        ACME_PREFIX@.is_prefix_of(decoded_path(up_to(rq.target, '?'))->0),
    ensures
        site_reply(v, site_index, cache, host, rq, keep_alive, plain) == challenge_reply(
            decoded_path(up_to(rq.target, '?'))->0.skip(ACME_PREFIX@.len() as int),
            site_index,
            v.sites@[site_index as int],
            keep_alive,
            rq.is_head,
        ),
{
}

/// A token that is read from disk is a single path segment, and no dot segment:
/// it holds neither a slash nor a dot.
pub proof fn law_tokens_stay_in_their_directory(
    rest: Seq<char>,
    site_index: usize,
    site: Site,
    keep_alive: bool,
    is_head: bool,
)
    ensures
        challenge_reply(rest, site_index, site, keep_alive, is_head) matches ReplyModel::Token {
            token,
            ..
        } ==> token.len() > 0 && !token.contains('/') && !token.contains('.'),
{
    if is_token(rest) {
        assert forall|i: int| 0 <= i < rest.len() implies rest[i] != '/' && rest[i] != '.' by {
            assert(is_token_char(rest[i]));
        }
    }
}

/// One of the encodings of an entry lies at a path of the snapshot.
pub open spec fn names_path(c: Cached, path: Seq<char>) -> bool {
    match c {
        Cached::Disk(d) => {
            ||| d.identity.path@ == path
            ||| d.gzip is Some && d.gzip->0.path@ == path
            ||| d.br is Some && d.br->0.path@ == path
        },
        Cached::Mem(_) => false,
    }
}

/// A body in the snapshot is named by an entry, never by a request: the path of
/// every file answer is that of an encoding of some cached entry.
pub proof fn law_files_come_from_the_cache(
    v: Vhosts,
    site_index: usize,
    cache: Map<Seq<char>, Cached>,
    host: Seq<char>,
    rq: RequestModel,
    keep_alive: bool,
    plain: bool,
)
    ensures
        site_reply(v, site_index, cache, host, rq, keep_alive, plain) matches ReplyModel::File {
            path,
            ..
        } ==> exists|k: Seq<char>| #[trigger] cache.contains_key(k) && names_path(cache[k], path),
{
    let r = site_reply(v, site_index, cache, host, rq, keep_alive, plain);
    if let ReplyModel::File { path, .. } = r {
        let decoded = decoded_path(up_to(rq.target, '?'))->0;
        if let Some(FoundModel::Entry(k)) = found(cache, decoded) {
            assert(cache.contains_key(k));
            assert(names_path(cache[k], path));
        }
    }
}

/// The redirect to a directory's slash lands: where a path without it stands for
/// a directory index, the path with it is servable.
pub proof fn law_the_trailing_slash_lands(cache: Map<Seq<char>, Cached>, decoded: Seq<char>)
    requires
        found(cache, decoded) == Some(FoundModel::DirIndex),
    ensures
        found(cache, decoded + "/"@) == Some(FoundModel::Entry(decoded + "/index.html"@)),
{
    reveal_strlit("/");
    reveal_strlit("index.html");
    reveal_strlit("/index.html");
    assert(decoded + "/"@ + "index.html"@ =~= decoded + "/index.html"@);
}

/// All the bytes of a list of writes.
pub open spec fn all_bytes(writes: Seq<Seq<u8>>) -> Seq<u8>
    decreases writes.len(),
{
    if writes.len() == 0 {
        seq![]
    } else {
        all_bytes(writes.drop_last()) + writes.last()
    }
}

/// A HEAD on content is answered like the GET, without the body: the bytes of the
/// one are a prefix of the bytes of the other.
pub proof fn law_head_on_content_is_a_prefix_of_get(
    e: MemEntry,
    accept_enc: Seq<char>,
    inm: Seq<char>,
    keep_alive: bool,
    security: Seq<char>,
)
    requires
        Cached::Mem(e).wf(),
    ensures
        match (
            mem_reply(e, accept_enc, inm, keep_alive, true, security),
            mem_reply(e, accept_enc, inm, keep_alive, false, security),
        ) {
            (
                ReplyModel::Send { writes: h, keep_alive: a },
                ReplyModel::Send { writes: g, keep_alive: b },
            ) => a == b && all_bytes(h).is_prefix_of(all_bytes(g)),
            _ => false,
        },
{
    reveal_with_fuel(all_bytes, 3);
    let v = mem_choice(e, accept_enc);
    let h = mem_reply(e, accept_enc, inm, keep_alive, true, security);
    let g = mem_reply(e, accept_enc, inm, keep_alive, false, security);
    if let (ReplyModel::Send { writes: hw, .. }, ReplyModel::Send { writes: gw, .. }) = (h, g) {
        assert(all_bytes(hw) =~= hw[0]);
        if gw.len() == 1 {
            assert(all_bytes(gw) =~= gw[0]);
        } else {
            assert(gw.drop_last() =~= seq![gw[0]]);
            assert(all_bytes(gw.drop_last()) =~= gw[0]);
            assert(all_bytes(gw) =~= gw[0] + gw[1]);
        }
        assert(all_bytes(hw) =~= all_bytes(gw).take(all_bytes(hw).len() as int));
    }
}

/// Every header block the server makes ends with the security headers and the
/// blank line: status pages, redirects, 304s, content and challenge answers.
pub proof fn law_security_headers_are_on_every_answer(
    security: Seq<char>,
    code: u16,
    reason: Seq<char>,
    conn: Seq<char>,
    location: Seq<char>,
    etag: Seq<char>,
    encoding: Option<Seq<char>>,
    vary: bool,
    cache_control: Seq<char>,
    mime: Seq<char>,
    len: nat,
    keep_alive: bool,
)
    ensures
        ({
            let end = security + "\r\n"@;
            &&& end.is_suffix_of(status_head(code, reason, conn, security))
            &&& end.is_suffix_of(redirect_text(location, keep_alive, security))
            &&& end.is_suffix_of(
                not_modified_text(etag, encoding, vary, cache_control, keep_alive, security),
            )
            &&& end.is_suffix_of(
                ok_head(mime, len, etag, encoding, vary, cache_control, security),
            )
            &&& end.is_suffix_of(token_head(len, keep_alive, security))
        }),
{
    let end = security + "\r\n"@;
    let a = status_head(code, reason, conn, security);
    assert(end =~= a.subrange(a.len() - end.len(), a.len() as int));
    let b = redirect_text(location, keep_alive, security);
    assert(end =~= b.subrange(b.len() - end.len(), b.len() as int));
    let c = not_modified_text(etag, encoding, vary, cache_control, keep_alive, security);
    assert(end =~= c.subrange(c.len() - end.len(), c.len() as int));
    let d = ok_head(mime, len, etag, encoding, vary, cache_control, security);
    assert(end =~= d.subrange(d.len() - end.len(), d.len() as int));
    let e = token_head(len, keep_alive, security);
    assert(end =~= e.subrange(e.len() - end.len(), e.len() as int));
}

// ------------------------------------------------------------------ clean URLs

/// Some slashes in a row.
pub open spec fn slashes(n: nat) -> Seq<char> {
    Seq::new(n, |i: int| '/')
}

proof fn lemma_unslashed(p: Seq<char>, n: nat)
    requires
        p.len() > 0 ==> p.last() != '/',
    ensures
        unslashed(p + slashes(n)) == p,
    decreases n,
{
    let t = p + slashes(n);
    if n > 0 {
        assert(t.last() == '/');
        assert(t.drop_last() =~= p + slashes((n - 1) as nat));
        lemma_unslashed(p, (n - 1) as nat);
    } else {
        assert(t =~= p);
    }
}

/// A page is served at its clean URLs. A path that names a file is that file; one
/// that does not is the page of that name, with or without slashes at its end; a
/// directory is its index, at its URL with the slash, to which the one without it is
/// sent; the index comes first at the URL with the slash, the page at the one
/// without. Where none of these files is there, nothing is found.
pub proof fn law_pages_are_served_at_clean_urls(
    cache: Map<Seq<char>, Cached>,
    p: Seq<char>,
    n: nat,
)
    requires
        p.len() > 0,
        p.last() != '/',
        n > 0,
    ensures
        cache.contains_key(p) ==> found(cache, p) == Some(FoundModel::Entry(p)),
        !cache.contains_key(p) && cache.contains_key(p + ".html"@) ==> found(cache, p) == Some(
            FoundModel::Entry(p + ".html"@),
        ),
        !cache.contains_key(p) && !cache.contains_key(p + ".html"@) && cache.contains_key(
            p + "/index.html"@,
        ) ==> found(cache, p) == Some(FoundModel::DirIndex),
        !cache.contains_key(p) && !cache.contains_key(p + ".html"@) && !cache.contains_key(
            p + "/index.html"@,
        ) ==> found(cache, p) is None,
        cache.contains_key(p + "/index.html"@) ==> found(cache, p + "/"@) == Some(
            FoundModel::Entry(p + "/index.html"@),
        ),
        !cache.contains_key(p + slashes(n) + "index.html"@) && cache.contains_key(p + ".html"@)
            ==> found(cache, p + slashes(n)) == Some(FoundModel::Entry(p + ".html"@)),
        !cache.contains_key(p + "/index.html"@) && cache.contains_key(p + ".html"@) ==> found(
            cache,
            p + "/"@,
        ) == Some(FoundModel::Entry(p + ".html"@)),
        !cache.contains_key(p + slashes(n) + "index.html"@) && !cache.contains_key(p + ".html"@)
            ==> found(cache, p + slashes(n)) is None,
{
    reveal_strlit("/");
    reveal_strlit("index.html");
    reveal_strlit("/index.html");
    assert(p + "/"@ + "index.html"@ =~= p + "/index.html"@);
    assert("/"@ =~= slashes(1));
    lemma_unslashed(p, n);
    lemma_unslashed(p, 1);
    assert((p + slashes(n)).last() == '/');
    assert((p + "/"@).last() == '/');
}

/// The root is its index, and nothing else.
pub proof fn law_the_root_is_its_index(cache: Map<Seq<char>, Cached>, n: nat)
    requires
        n > 0,
    ensures
        cache.contains_key("/index.html"@) ==> found(cache, "/"@) == Some(
            FoundModel::Entry("/index.html"@),
        ),
        !cache.contains_key(slashes(n) + "index.html"@) ==> found(cache, slashes(n)) is None,
{
    reveal_strlit("/");
    reveal_strlit("index.html");
    reveal_strlit("/index.html");
    assert("/"@ + "index.html"@ =~= "/index.html"@);
    assert(slashes(n).last() == '/');
    lemma_unslashed(seq![], n);
    assert(seq![] + slashes(n) =~= slashes(n));
}

/// The redirect to a canonical URL lands: where the path of a page with `.html` is
/// that of a cached file, the path that it is sent to is servable; an index is
/// served there itself, and so is any other page, unless a directory of its name
/// has an index.
pub proof fn law_canonical_urls_land(cache: Map<Seq<char>, Cached>, path: Seq<char>)
    requires
        ".html"@.is_suffix_of(path),
        path.len() > 5,
        path[0] == '/',
        path[path.len() - 6] != '/',
        cache.contains_key(path),
    ensures
        canonical_of(path) matches Some(c) ==> {
            &&& found(cache, c) is Some
            &&& found(cache, c)->0 is Entry
            &&& !cache.contains_key(c + "index.html"@) ==> found(cache, c) == Some(
                FoundModel::Entry(path),
            )
        },
        canonical_of(path) is Some,
{
    reveal_strlit("/");
    reveal_strlit("index");
    reveal_strlit(".html");
    reveal_strlit("index.html");
    let stem = path.take(path.len() - 5);
    assert(path =~= stem + ".html"@);
    let dir = stem.take(stem.len() - 5);
    if "index"@.is_suffix_of(stem) && (dir.len() == 0 || dir.last() == '/') {
        assert(stem =~= dir + "index"@);
        assert(path =~= dir + "index.html"@);
        assert(dir.len() > 0) by {
            if dir.len() == 0 {
                assert(path[0] == "index.html"@[0]);
            }
        }
    } else {
        let c = stem + "/"@;
        assert(stem.last() == path[path.len() - 6]);
        assert("/"@ =~= slashes(1));
        lemma_unslashed(stem, 1);
        assert(c.last() == '/');
    }
}

// ------------------------------------------------------------------- negotiation

/// The best encoding that a client accepts is what it gets, of an entry in memory
/// and of one on disk alike: brotli where the entry has that form and the client
/// takes it, otherwise gzip where both hold of it, and the file as it is only where
/// the client takes no form that the entry has.
pub proof fn law_the_best_accepted_encoding_is_sent(
    m: MemEntry,
    d: DiskEntry,
    field: Seq<char>,
)
    ensures
        m.br is Some && accepts(field, "br"@) ==> mem_choice(m, field) == m.br->0,
        !(m.br is Some && accepts(field, "br"@)) && m.gzip is Some && accepts(field, "gzip"@)
            ==> mem_choice(m, field) == m.gzip->0,
        !(m.br is Some && accepts(field, "br"@)) && !(m.gzip is Some && accepts(field, "gzip"@))
            ==> mem_choice(m, field) == m.identity,
        d.br is Some && accepts(field, "br"@) ==> disk_choice(d, field) == d.br->0,
        !(d.br is Some && accepts(field, "br"@)) && d.gzip is Some && accepts(field, "gzip"@)
            ==> disk_choice(d, field) == d.gzip->0,
        !(d.br is Some && accepts(field, "br"@)) && !(d.gzip is Some && accepts(field, "gzip"@))
            ==> disk_choice(d, field) == d.identity,
{
}

/// An answer's bytes start with a text.
pub open spec fn starts_with_text(r: ReplyModel, text: Seq<char>) -> bool {
    r matches ReplyModel::Send { writes, .. } && encode_utf8(text).is_prefix_of(all_bytes(writes))
}

/// Whether the connection is kept behind an answer.
pub open spec fn is_kept(r: ReplyModel) -> bool {
    match r {
        ReplyModel::Send { keep_alive, .. } => keep_alive,
        ReplyModel::File { keep_alive, .. } => keep_alive,
        ReplyModel::Token { keep_alive, .. } => keep_alive,
    }
}

proof fn lemma_one(bytes: Seq<u8>)
    ensures
        all_bytes(seq![bytes]) == bytes,
{
    reveal_with_fuel(all_bytes, 2);
    assert(seq![bytes].drop_last() =~= seq![]);
    assert(all_bytes(seq![bytes]) =~= bytes);
}

proof fn lemma_starts(bytes: Seq<u8>, keep_alive: bool, front: Seq<char>, text: Seq<char>)
    requires
        front.is_prefix_of(text),
        encode_utf8(text).is_prefix_of(bytes),
    ensures
        starts_with_text(one_write(bytes, keep_alive), front),
{
    lemma_one(bytes);
    let rest = text.skip(front.len() as int);
    assert(text =~= front + rest);
    lemma_encode_concat(front, rest);
    let e = encode_utf8(front);
    assert(e =~= bytes.subrange(0, e.len() as int));
}

/// A client that has the body that it would get, and says so, is told that nothing
/// has changed, with the validator and without a body; any other client is sent the
/// header and the whole body of its encoding, or the header alone where that is all
/// it asks for.
pub proof fn law_only_a_current_copy_is_left_unsent(
    e: MemEntry,
    field: Seq<char>,
    inm: Seq<char>,
    keep_alive: bool,
    is_head: bool,
    security: Seq<char>,
)
    requires
        Cached::Mem(e).wf(),
    ensures
        ({
            let r = mem_reply(e, field, inm, keep_alive, is_head, security);
            let v = mem_choice(e, field);
            let current = inm.len() > 0 && lists_tag(inm, v.etag@);
            &&& is_kept(r) == keep_alive
            &&& current ==> starts_with_text(
                r,
                "HTTP/1.1 304 Not Modified\r\nETag: \""@ + v.etag@ + "\"\r\n"@,
            )
            &&& !current ==> {
                let head = if keep_alive {
                    v.head()
                } else {
                    closing_header(v.head())
                };
                r matches ReplyModel::Send { writes, .. } && all_bytes(writes) == (if is_head {
                    head
                } else {
                    head + v.body()
                })
            }
        }),
{
    let v = mem_choice(e, field);
    let head = if keep_alive {
        v.head()
    } else {
        closing_header(v.head())
    };
    assert(v.full_ka@ =~= v.head() + v.body());
    lemma_one(v.full_ka@);
    lemma_one(head);
    reveal_with_fuel(all_bytes, 3);
    assert(seq![head, v.body()].drop_last() =~= seq![head]);
    assert(all_bytes(seq![head, v.body()]) =~= head + v.body());
    let text = not_modified_text(
        v.etag@,
        encoding_text(v.encoding),
        e.vary,
        e.cache_control@,
        keep_alive,
        security,
    );
    let front = "HTTP/1.1 304 Not Modified\r\nETag: \""@ + v.etag@ + "\"\r\n"@;
    assert(front =~= text.subrange(0, front.len() as int));
    let bytes = encode_utf8(text);
    assert(bytes =~= bytes.subrange(0, bytes.len() as int));
    lemma_starts(bytes, keep_alive, front, text);
}

/// A page that has changed is sent again: a client that has an older body and names
/// its validator gets the new one in full, where the two bodies differ in a byte,
/// wherever it stands, or in length.
pub proof fn law_a_changed_page_is_sent_again(
    e: MemEntry,
    field: Seq<char>,
    older: Seq<u8>,
    front: Seq<u8>,
    a: u8,
    b: u8,
    back: Seq<u8>,
    keep_alive: bool,
    is_head: bool,
    security: Seq<char>,
)
    requires
        Cached::Mem(e).wf(),
        mem_choice(e, field).etag@ == etag_text(mem_choice(e, field).body()),
        older.len() != mem_choice(e, field).body().len() || (older == front + seq![a] + back
            && mem_choice(e, field).body() == front + seq![b] + back && a != b),
    ensures
        ({
            let r = mem_reply(e, field, quoted(etag_text(older)), keep_alive, is_head, security);
            let v = mem_choice(e, field);
            let head = if keep_alive {
                v.head()
            } else {
                closing_header(v.head())
            };
            r matches ReplyModel::Send { writes, .. } && all_bytes(writes) == (if is_head {
                head
            } else {
                head + v.body()
            })
        }),
{
    let v = mem_choice(e, field);
    law_validators_tell_bodies_apart(older, v.body(), front, a, b, back);
    lemma_validator_is_plain(older);
    lemma_validator_is_plain(v.body());
    law_one_tag_matches_itself_alone(etag_text(older), v.etag@);
    law_only_a_current_copy_is_left_unsent(
        e,
        field,
        quoted(etag_text(older)),
        keep_alive,
        is_head,
        security,
    );
}

proof fn lemma_validator_is_plain(body: Seq<u8>)
    ensures
        !etag_text(body).contains('"'),
        !etag_text(body).contains(','),
        !etag_text(body).contains('/'),
{
    reveal_strlit("-");
    law_hexadecimal_reads_back(body.len());
    law_hexadecimal_reads_back(crate::response::mixed_bytes(crate::response::FNV_OFFSET, body) as nat);
    let t = etag_text(body);
    let l = crate::text::hex_text(body.len());
    let h = crate::text::hex_text(
        crate::response::mixed_bytes(crate::response::FNV_OFFSET, body) as nat,
    );
    assert forall|i: int| 0 <= i < t.len() implies t[i] != '"' && t[i] != ',' && t[i] != '/' by {
        if i < l.len() {
            assert(t[i] == l[i]);
        } else if i > l.len() {
            assert(t[i] == h[i - l.len() - 1]);
        }
    }
}

// ----------------------------------------------------------------------- routing

proof fn lemma_status_starts(
    r: StatusResponse,
    code: u16,
    reason: Seq<char>,
    security: Seq<char>,
    line: Seq<char>,
    keep_alive: bool,
    is_head: bool,
)
    requires
        is_status(r, code, reason, security),
        line.is_prefix_of("HTTP/1.1 "@ + dec_text(code as nat) + " "@ + reason + "\r\n"@),
    ensures
        starts_with_text(refusal(r, keep_alive, is_head), line),
        is_kept(refusal(r, keep_alive, is_head)) == keep_alive,
{
    let conn = connection_word(keep_alive);
    let text = status_head(code, reason, conn, security);
    reveal_strlit("\r\n");
    reveal_strlit("\r\nContent-Type: text/html; charset=utf-8\r\nContent-Length: ");
    let full = "HTTP/1.1 "@ + dec_text(code as nat) + " "@ + reason + "\r\n"@;
    assert(full =~= text.subrange(0, full.len() as int));
    assert(line =~= text.subrange(0, line.len() as int));
    let bytes = r.wire(keep_alive, is_head);
    assert(bytes == status_wire(code, reason, security, keep_alive, is_head));
    let e = encode_utf8(text);
    assert(e =~= bytes.subrange(0, e.len() as int));
    lemma_starts(bytes, keep_alive, line, text);
}

proof fn lemma_three_digits(n: nat)
    requires
        100 <= n < 1000,
    ensures
        dec_text(n) == seq![
            ('0' as nat + n / 100) as char,
            ('0' as nat + n / 10 % 10) as char,
            ('0' as nat + n % 10) as char,
        ],
{
    reveal_with_fuel(dec_text, 3);
    assert(dec_text(n) =~= seq![
        ('0' as nat + n / 100) as char,
        ('0' as nat + n / 10 % 10) as char,
        ('0' as nat + n % 10) as char,
    ]);
}

proof fn lemma_whole(s: Seq<char>)
    ensures
        s.is_prefix_of(s),
{
    assert(s =~= s.subrange(0, s.len() as int));
}

/// Each of the server's own pages says what it is for.
#[verifier::spinoff_prover]
#[verifier::rlimit(60)]
pub proof fn law_pages_say_what_they_are_for(
    pages: ErrorPages,
    security: Seq<char>,
    keep_alive: bool,
    is_head: bool,
)
    requires
        pages_for(pages, security),
    ensures
        starts_with_text(
            refusal(pages.bad_request, keep_alive, is_head),
            "HTTP/1.1 400 Bad Request\r\n"@,
        ),
        starts_with_text(
            refusal(pages.not_found, keep_alive, is_head),
            "HTTP/1.1 404 Not Found\r\n"@,
        ),
        starts_with_text(
            refusal(pages.method_not_allowed, keep_alive, is_head),
            "HTTP/1.1 405 Method Not Allowed\r\n"@,
        ),
        starts_with_text(
            refusal(pages.request_timeout, keep_alive, is_head),
            "HTTP/1.1 408 Request Timeout\r\n"@,
        ),
        starts_with_text(
            refusal(pages.headers_too_large, keep_alive, is_head),
            "HTTP/1.1 431 Request Header Fields Too Large\r\n"@,
        ),
        starts_with_text(
            refusal(pages.internal_error, keep_alive, is_head),
            "HTTP/1.1 500 Internal Server Error\r\n"@,
        ),
{
    reveal_strlit("HTTP/1.1 ");
    reveal_strlit(" ");
    reveal_strlit("\r\n");
    assert("HTTP/1.1 400 Bad Request\r\n"@ =~= "HTTP/1.1 "@ + dec_text(400) + " "@ + "Bad Request"@ + "\r\n"@) by {
        reveal_strlit("HTTP/1.1 400 Bad Request\r\n");
        reveal_strlit("Bad Request");
        lemma_three_digits(400);
    }
    lemma_whole("HTTP/1.1 400 Bad Request\r\n"@);
    lemma_status_starts(
        pages.bad_request,
        400,
        "Bad Request"@,
        security,
        "HTTP/1.1 400 Bad Request\r\n"@,
        keep_alive,
        is_head,
    );
    assert("HTTP/1.1 404 Not Found\r\n"@ =~= "HTTP/1.1 "@ + dec_text(404) + " "@ + "Not Found"@ + "\r\n"@) by {
        reveal_strlit("HTTP/1.1 404 Not Found\r\n");
        reveal_strlit("Not Found");
        lemma_three_digits(404);
    }
    lemma_whole("HTTP/1.1 404 Not Found\r\n"@);
    lemma_status_starts(
        pages.not_found,
        404,
        "Not Found"@,
        security,
        "HTTP/1.1 404 Not Found\r\n"@,
        keep_alive,
        is_head,
    );
    assert("HTTP/1.1 405 Method Not Allowed\r\n"@ =~= "HTTP/1.1 "@ + dec_text(405) + " "@ + "Method Not Allowed"@ + "\r\n"@) by {
        reveal_strlit("HTTP/1.1 405 Method Not Allowed\r\n");
        reveal_strlit("Method Not Allowed");
        lemma_three_digits(405);
    }
    lemma_whole("HTTP/1.1 405 Method Not Allowed\r\n"@);
    lemma_status_starts(
        pages.method_not_allowed,
        405,
        "Method Not Allowed"@,
        security,
        "HTTP/1.1 405 Method Not Allowed\r\n"@,
        keep_alive,
        is_head,
    );
    assert("HTTP/1.1 408 Request Timeout\r\n"@ =~= "HTTP/1.1 "@ + dec_text(408) + " "@ + "Request Timeout"@ + "\r\n"@) by {
        reveal_strlit("HTTP/1.1 408 Request Timeout\r\n");
        reveal_strlit("Request Timeout");
        lemma_three_digits(408);
    }
    lemma_whole("HTTP/1.1 408 Request Timeout\r\n"@);
    lemma_status_starts(
        pages.request_timeout,
        408,
        "Request Timeout"@,
        security,
        "HTTP/1.1 408 Request Timeout\r\n"@,
        keep_alive,
        is_head,
    );
    assert("HTTP/1.1 431 Request Header Fields Too Large\r\n"@ =~= "HTTP/1.1 "@ + dec_text(431) + " "@ + "Request Header Fields Too Large"@ + "\r\n"@) by {
        reveal_strlit("HTTP/1.1 431 Request Header Fields Too Large\r\n");
        reveal_strlit("Request Header Fields Too Large");
        lemma_three_digits(431);
    }
    lemma_whole("HTTP/1.1 431 Request Header Fields Too Large\r\n"@);
    lemma_status_starts(
        pages.headers_too_large,
        431,
        "Request Header Fields Too Large"@,
        security,
        "HTTP/1.1 431 Request Header Fields Too Large\r\n"@,
        keep_alive,
        is_head,
    );
    assert("HTTP/1.1 500 Internal Server Error\r\n"@ =~= "HTTP/1.1 "@ + dec_text(500) + " "@ + "Internal Server Error"@ + "\r\n"@) by {
        reveal_strlit("HTTP/1.1 500 Internal Server Error\r\n");
        reveal_strlit("Internal Server Error");
        lemma_three_digits(500);
    }
    lemma_whole("HTTP/1.1 500 Internal Server Error\r\n"@);
    lemma_status_starts(
        pages.internal_error,
        500,
        "Internal Server Error"@,
        security,
        "HTTP/1.1 500 Internal Server Error\r\n"@,
        keep_alive,
        is_head,
    );
}

/// A target is a path and a query: the path ends before the first question mark, and
/// the query starts with it.
pub proof fn law_targets_split_at_the_question_mark(path: Seq<char>, query: Seq<char>)
    requires
        !path.contains('?'),
    ensures
        up_to(path + seq!['?'] + query, '?') == path,
        query_of(path + seq!['?'] + query) == seq!['?'] + query,
        up_to(path, '?') == path,
        query_of(path) == Seq::<char>::empty(),
{
    let t = path + seq!['?'] + query;
    law_a_cut_is_at_the_first(path, '?', query);
    lemma_first_of(t, '?');
    lemma_first_of(path, '?');
    assert(t.skip(path.len() as int) =~= seq!['?'] + query);
}

/// The query of a request survives a redirect: it goes behind the target, before
/// the target's fragment if it has one; a target with a query of its own keeps that
/// one instead. A question mark inside a fragment is no query.
pub proof fn law_the_query_is_carried_over(
    base: Seq<char>,
    own: Seq<char>,
    fragment: Seq<char>,
    query: Seq<char>,
)
    requires
        !base.contains('?'),
        !base.contains('#'),
        !own.contains('#'),
    ensures
        with_query(base, query) == base + query,
        with_query(base + seq!['#'] + fragment, query) == base + query + seq!['#'] + fragment,
        with_query(base + seq!['?'] + own, query) == base + seq!['?'] + own,
        with_query(base + seq!['?'] + own + seq!['#'] + fragment, query) == base + seq!['?'] + own
            + seq!['#'] + fragment,
{
    lemma_first_of(base, '#');
    assert(base + query + seq![] =~= base + query);
    let f = base + seq!['#'] + fragment;
    law_a_cut_is_at_the_first(base, '#', fragment);
    lemma_first_of(f, '#');
    assert(f.skip(base.len() as int) =~= seq!['#'] + fragment);
    assert(base + query + (seq!['#'] + fragment) =~= base + query + seq!['#'] + fragment);
    let q = base + seq!['?'] + own;
    assert(q[base.len() as int] == '?');
    assert(q.contains('?'));
    assert(!q.contains('#')) by {
        assert forall|i: int| 0 <= i < q.len() implies q[i] != '#' by {
            if i < base.len() {
                assert(base.contains(base[i]));
            } else if i > base.len() {
                assert(own.contains(own[i - base.len() - 1]));
            }
        }
    }
    lemma_first_of(q, '#');
    law_a_cut_is_at_the_first(q, '#', fragment);
    lemma_first_of(q + seq!['#'] + fragment, '#');
}

/// A rule's target leads where it says: an absolute URL as it stands, a path on the
/// host that was asked.
pub proof fn law_targets_lead_where_they_say(
    rest: Seq<char>,
    path: Seq<char>,
    origin: Seq<char>,
    query: Seq<char>,
)
    requires
        path.len() > 0 && path[0] == '/',
    ensures
        location_of("https://"@ + rest, origin, query) == with_query("https://"@ + rest, query),
        location_of("http://"@ + rest, origin, query) == with_query("http://"@ + rest, query),
        location_of(path, origin, query) == origin + with_query(path, query),
{
    reveal_strlit("https://");
    reveal_strlit("http://");
    let a = "https://"@ + rest;
    assert("https://"@ =~= a.subrange(0, 8));
    let b = "http://"@ + rest;
    assert("http://"@ =~= b.subrange(0, 7));
    assert("http://"@[0] == 'h' && "https://"@[0] == 'h');
    if "http://"@.is_prefix_of(path) {
        assert(path.subrange(0, 7)[0] == 'h');
    }
    if "https://"@.is_prefix_of(path) {
        assert(path.subrange(0, 8)[0] == 'h');
    }
}

/// A redirect stays with the scheme that the site is served on: HTTPS everywhere but
/// on the plain listener of a site that is served there too. The standard ports are
/// not named.
pub proof fn law_redirects_stay_on_the_right_scheme(
    v: Vhosts,
    site: Site,
    host: Seq<char>,
    plain: bool,
)
    ensures
        plain && !site.force_ssl && v.http_port@ == "80"@ ==> origin_of(v, site, host, plain)
            == "http://"@ + host,
        plain && !site.force_ssl && v.http_port@ != "80"@ && v.http_port@.len() > 0 ==> origin_of(
            v,
            site,
            host,
            plain,
        ) == "http://"@ + host + ":"@ + v.http_port@,
        (!plain || site.force_ssl) && v.https_port@ == "443"@ ==> origin_of(v, site, host, plain)
            == "https://"@ + host,
        (!plain || site.force_ssl) && v.https_port@ != "443"@ && v.https_port@.len() > 0
            ==> origin_of(v, site, host, plain) == "https://"@ + host + ":"@ + v.https_port@,
{
    assert("http://"@ + (host + ":"@ + v.http_port@) =~= "http://"@ + host + ":"@ + v.http_port@);
    assert("https://"@ + (host + ":"@ + v.https_port@) =~= "https://"@ + host + ":"@
        + v.https_port@);
}

proof fn lemma_redirect_starts(
    location: Seq<char>,
    keep_alive: bool,
    security: Seq<char>,
)
    ensures
        starts_with_text(
            one_write(
                encode_utf8(redirect_text(location, keep_alive, security)),
                keep_alive,
            ),
            "HTTP/1.1 301 Moved Permanently\r\nLocation: "@ + location + "\r\n"@,
        ),
{
    let text = redirect_text(location, keep_alive, security);
    let front = "HTTP/1.1 301 Moved Permanently\r\nLocation: "@ + location + "\r\n"@;
    reveal_strlit("\r\n");
    reveal_strlit("\r\nContent-Length: 0\r\nConnection: ");
    assert(front =~= text.subrange(0, front.len() as int));
    let bytes = encode_utf8(text);
    assert(bytes =~= bytes.subrange(0, bytes.len() as int));
    lemma_starts(bytes, keep_alive, front, text);
}

/// What a site refuses, and how: a method other than GET and HEAD with 405; a path
/// that is empty or does not start with a slash, one of a kilobyte or more, and one
/// that is not well encoded with 400, behind which the connection is closed.
pub proof fn law_a_site_refuses_what_it_cannot_serve(
    v: Vhosts,
    i: usize,
    cache: Map<Seq<char>, Cached>,
    host: Seq<char>,
    rq: RequestModel,
    keep_alive: bool,
    plain: bool,
)
    requires
        v.sites@[i as int].policy.wf(),
    ensures
        ({
            let r = site_reply(v, i, cache, host, rq, keep_alive, plain);
            let path = up_to(rq.target, '?');
            let bad = path.len() == 0 || path[0] != '/' || encode_utf8(path).len() >= 1024
                || decoded_bytes(encode_utf8(path)) is None || text_of(
                decoded_bytes(encode_utf8(path))->0,
            ) is None;
            &&& !rq.is_get && !rq.is_head ==> starts_with_text(
                r,
                "HTTP/1.1 405 Method Not Allowed\r\n"@,
            ) && is_kept(r) == keep_alive
            &&& (rq.is_get || rq.is_head) && bad ==> starts_with_text(
                r,
                "HTTP/1.1 400 Bad Request\r\n"@,
            ) && !is_kept(r)
        }),
{
    let p = v.sites@[i as int].policy;
    law_pages_say_what_they_are_for(p.errors, p.security_headers@, keep_alive, rq.is_head);
    law_pages_say_what_they_are_for(p.errors, p.security_headers@, false, rq.is_head);
}

/// The order in which a site answers. A rule that matches the path as it was sent
/// comes before everything but the challenges; then the canonical URL, where the
/// site asks for it; then the upgrade to HTTPS, which keeps the target as it is; and
/// only then content, whose directories are sent to their slash.
pub proof fn law_a_site_answers_in_order(
    v: Vhosts,
    i: usize,
    cache: Map<Seq<char>, Cached>,
    host: Seq<char>,
    rq: RequestModel,
    keep_alive: bool,
    plain: bool,
)
    requires
        v.sites@[i as int].policy.wf(),
        is_sound_request(rq),
        !"/.well-known/acme-challenge/"@.is_prefix_of(decoded_path(up_to(rq.target, '?'))->0),
    ensures
        ({
            let site = v.sites@[i as int];
            let r = site_reply(v, i, cache, host, rq, keep_alive, plain);
            let path = up_to(rq.target, '?');
            let decoded = decoded_path(path)->0;
            let origin = origin_of(v, site, host, plain);
            let query = query_of(rq.target);
            let to = redirect_of(site.redirects@, path);
            let folded = if site.canonical_urls {
                canonical_of(decoded)
            } else {
                None
            };
            let front = "HTTP/1.1 301 Moved Permanently\r\nLocation: "@;
            &&& to is Some ==> starts_with_text(
                r,
                front + location_of(to->0, origin, query) + "\r\n"@,
            )
            &&& to is None && folded is Some ==> starts_with_text(
                r,
                front + (origin + encoded_path(encode_utf8(folded->0)) + query) + "\r\n"@,
            )
            &&& to is None && folded is None && plain && site.force_ssl ==> starts_with_text(
                r,
                front + (origin + rq.target) + "\r\n"@,
            )
            &&& to is None && folded is None && !(plain && site.force_ssl) ==> {
                &&& found(cache, decoded) is None ==> starts_with_text(
                    r,
                    "HTTP/1.1 404 Not Found\r\n"@,
                ) && is_kept(r) == keep_alive
                &&& found(cache, decoded) == Some(FoundModel::DirIndex) ==> starts_with_text(
                    r,
                    front + (origin + encoded_path(encode_utf8(decoded)) + "/"@ + query) + "\r\n"@,
                )
                &&& found(cache, decoded) matches Some(FoundModel::Entry(k)) ==> match cache[k] {
                    Cached::Mem(m) => r == mem_reply(
                        m,
                        rq.accept_enc,
                        rq.inm,
                        keep_alive,
                        rq.is_head,
                        site.policy.security_headers@,
                    ),
                    Cached::Disk(d) => r == disk_reply(
                        d,
                        rq.accept_enc,
                        rq.inm,
                        keep_alive,
                        rq.is_head,
                        i,
                        site.policy,
                    ),
                }
            }
        }),
{
    let site = v.sites@[i as int];
    let path = up_to(rq.target, '?');
    let decoded = decoded_path(path)->0;
    let origin = origin_of(v, site, host, plain);
    let query = query_of(rq.target);
    let security = site.policy.security_headers@;
    law_pages_say_what_they_are_for(site.policy.errors, security, keep_alive, rq.is_head);
    if let Some(to) = redirect_of(site.redirects@, path) {
        lemma_redirect_starts(location_of(to, origin, query), keep_alive, security);
    }
    if let Some(c) = canonical_of(decoded) {
        lemma_redirect_starts(
            origin + encoded_path(encode_utf8(c)) + query,
            keep_alive,
            security,
        );
    }
    lemma_redirect_starts(origin + rq.target, keep_alive, security);
    lemma_redirect_starts(
        origin + encoded_path(encode_utf8(decoded)) + "/"@ + query,
        keep_alive,
        security,
    );
}

/// A host of the table is answered by its own site, from that site's own content; a
/// head that cannot be read is refused with 400 and the connection closed; and the
/// connection is kept only where both sides want it.
pub proof fn law_a_host_is_answered_by_its_site(
    head: Seq<u8>,
    v: Vhosts,
    caches: Seq<Arc<SiteCache>>,
    want_ka: bool,
    plain: bool,
    sni: Option<Seq<char>>,
    security: Seq<char>,
)
    requires
        pages_for(v.errors, security),
    ensures
        ({
            let r = reply_of(head, v, caches, want_ka, plain, sni);
            &&& request_of(head) is Err ==> starts_with_text(r, "HTTP/1.1 400 Bad Request\r\n"@)
                && !is_kept(r)
            &&& request_of(head) matches Ok(rq) ==> {
                let host = host_key_of(rq.host);
                let known = v.names@.contains_key(host) && (sni is None || sni == Some(host));
                &&& !known ==> starts_with_text(r, "HTTP/1.1 404 Not Found\r\n"@)
                &&& known ==> r == site_reply(
                    v,
                    v.names@[host],
                    caches[v.names@[host] as int]@,
                    host,
                    rq,
                    rq.keep_alive && want_ka,
                    plain,
                )
            }
        }),
{
    match request_of(head) {
        Err(is_head) => law_pages_say_what_they_are_for(v.errors, security, false, is_head),
        Ok(rq) => law_pages_say_what_they_are_for(
            v.errors,
            security,
            rq.keep_alive && want_ka,
            rq.is_head,
        ),
    }
}

// ---------------------------------------------------------------------- challenges

/// A character that a challenge token may hold.
pub open spec fn in_token_alphabet(c: char) -> bool {
    'a' <= c <= 'z' || 'A' <= c <= 'Z' || '0' <= c <= '9' || c == '-' || c == '_'
}

/// Every well-formed token is looked for below the root of its site, as it was asked
/// for; what is no token, and any token on a site without a root, is not found.
pub proof fn law_every_token_is_looked_for(
    rest: Seq<char>,
    i: usize,
    site: Site,
    keep_alive: bool,
    is_head: bool,
)
    requires
        site.policy.wf(),
    ensures
        ({
            let r = challenge_reply(rest, i, site, keep_alive, is_head);
            let well = 1 <= rest.len() <= 128 && forall|j: int|
                0 <= j < rest.len() ==> in_token_alphabet(#[trigger] rest[j]);
            &&& well && site.root is Some ==> r == (ReplyModel::Token {
                site: i,
                root: site.root->0@,
                token: rest,
                keep_alive,
                is_head,
            })
            &&& !well || site.root is None ==> starts_with_text(r, "HTTP/1.1 404 Not Found\r\n"@)
                && is_kept(r) == keep_alive
        }),
{
    law_pages_say_what_they_are_for(
        site.policy.errors,
        site.policy.security_headers@,
        keep_alive,
        is_head,
    );
    if forall|j: int| 0 <= j < rest.len() ==> in_token_alphabet(#[trigger] rest[j]) {
        assert forall|j: int| 0 <= j < rest.len() implies is_token_char(#[trigger] rest[j]) by {
            assert(in_token_alphabet(rest[j]));
            lemma_token_char(rest[j]);
        }
    } else {
        let j = choose|j: int| 0 <= j < rest.len() && !in_token_alphabet(#[trigger] rest[j]);
        lemma_token_char(rest[j]);
        assert(!is_token_char(rest[j]));
    }
}

proof fn lemma_token_char(c: char)
    ensures
        is_token_char(c) <==> in_token_alphabet(c),
{
}

proof fn lemma_token_head_starts(len: nat, keep_alive: bool, security: Seq<char>)
    ensures
        ("HTTP/1.1 200 OK\r\nContent-Type: text/plain; charset=utf-8\r\nContent-Length: "@ + dec_text(
            len,
        ) + "\r\nCache-Control: no-store\r\n"@).is_prefix_of(
            token_head(len, keep_alive, security),
        ),
{
    let start =
        "HTTP/1.1 200 OK\r\nContent-Type: text/plain; charset=utf-8\r\nContent-Length: "@ + dec_text(
        len,
    );
    let rest = connection_word(keep_alive) + "\r\n"@ + security + "\r\n"@;
    let mid = "\r\nCache-Control: no-store\r\n"@;
    assert("\r\nCache-Control: no-store\r\nConnection: "@ =~= mid + "Connection: "@) by {
        reveal_strlit("\r\nCache-Control: no-store\r\n");
        reveal_strlit("\r\nCache-Control: no-store\r\nConnection: ");
        reveal_strlit("Connection: ");
    }
    let text = token_head(len, keep_alive, security);
    assert(text =~= start + mid + ("Connection: "@ + rest));
    assert(start + mid =~= text.subrange(0, (start + mid).len() as int));
}

/// A token that was read is sent as it is, as plain text that nothing may store, and
/// its length is stated also where only the header is asked for; one that could not
/// be read is not found.
pub proof fn law_tokens_are_sent_as_they_are(
    body: Seq<u8>,
    keep_alive: bool,
    is_head: bool,
    policy: Policy,
)
    requires
        policy.wf(),
    ensures
        starts_with_text(
            token_answer(None, keep_alive, is_head, policy),
            "HTTP/1.1 404 Not Found\r\n"@,
        ),
        starts_with_text(
            token_answer(Some(body), keep_alive, is_head, policy),
            "HTTP/1.1 200 OK\r\nContent-Type: text/plain; charset=utf-8\r\nContent-Length: "@
                + dec_text(body.len()) + "\r\nCache-Control: no-store\r\n"@,
        ),
        is_kept(token_answer(Some(body), keep_alive, is_head, policy)) == keep_alive,
        token_answer(Some(body), keep_alive, true, policy) matches ReplyModel::Send {
            writes: h,
            ..
        } && token_answer(Some(body), keep_alive, false, policy) matches ReplyModel::Send {
            writes: g,
            ..
        } && all_bytes(g) == all_bytes(h) + body,
{
    law_pages_say_what_they_are_for(policy.errors, policy.security_headers@, keep_alive, is_head);
    let text = token_head(body.len(), keep_alive, policy.security_headers@);
    let front =
        "HTTP/1.1 200 OK\r\nContent-Type: text/plain; charset=utf-8\r\nContent-Length: "@ + dec_text(
        body.len(),
    ) + "\r\nCache-Control: no-store\r\n"@;
    lemma_token_head_starts(body.len(), keep_alive, policy.security_headers@);
    let e = encode_utf8(text);
    let bytes = if is_head {
        e
    } else {
        e + body
    };
    assert(e =~= bytes.subrange(0, e.len() as int));
    lemma_starts(bytes, keep_alive, front, text);
    lemma_one(e);
    lemma_one(e + body);
}

// -------------------------------------------------- what answers without a body say

/// A redirect says where to, that it has no body, and what becomes of the connection;
/// the security headers end it.
pub proof fn law_redirects_state_their_fields(
    location: Seq<char>,
    keep_alive: bool,
    security: Seq<char>,
)
    ensures
        ({
            let text = redirect_text(location, keep_alive, security);
            let word = if keep_alive {
                "keep-alive"@
            } else {
                "close"@
            };
            &&& has_line(text, "Location: "@ + location)
            &&& has_line(text, "Content-Length: 0"@)
            &&& has_line(text, "Connection: "@ + word)
            &&& (security + "\r\n"@).is_suffix_of(text)
        }),
{
    let text = redirect_text(location, keep_alive, security);
    let word = connection_word(keep_alive);
    reveal_strlit("HTTP/1.1 301 Moved Permanently");
    reveal_strlit("HTTP/1.1 301 Moved Permanently\r\nLocation: ");
    reveal_strlit("Location: ");
    reveal_strlit("\r\nContent-Length: 0\r\nConnection: ");
    reveal_strlit("Content-Length: 0");
    reveal_strlit("Connection: ");
    reveal_strlit("\r\n");
    let crlf = "\r\n"@;
    let front = "HTTP/1.1 301 Moved Permanently"@;
    let last = security + crlf;
    let to = "Location: "@ + location;
    let bare = "Content-Length: 0"@;
    let kept = "Connection: "@ + word;
    assert("HTTP/1.1 301 Moved Permanently\r\nLocation: "@ =~= front + crlf + "Location: "@);
    assert("\r\nContent-Length: 0\r\nConnection: "@ =~= crlf + bare + crlf + "Connection: "@);
    assert(text =~= front + crlf + to + crlf + (bare + crlf + kept + crlf + last));
    lemma_has_line(text, front, to, bare + crlf + kept + crlf + last);
    assert(text =~= (front + crlf + to) + crlf + bare + crlf + (kept + crlf + last));
    lemma_has_line(text, front + crlf + to, bare, kept + crlf + last);
    assert(text =~= (front + crlf + to + crlf + bare) + crlf + kept + crlf + last);
    lemma_has_line(text, front + crlf + to + crlf + bare, kept, last);
    assert(last =~= text.subrange(text.len() - last.len(), text.len() as int));
}

/// A 304 states the tag of the copy that is current, for how long it may be kept, and
/// what becomes of the connection. Where the copy is encoded it names the encoding,
/// and where encodings vary it says so; these two lines are all that they add.
pub proof fn law_a_304_states_what_a_copy_needs(
    etag: Seq<char>,
    enc: Seq<char>,
    cache_control: Seq<char>,
    keep_alive: bool,
    security: Seq<char>,
)
    ensures
        ({
            let front = "HTTP/1.1 304 Not Modified\r\nETag: \""@ + etag + "\"\r\n"@;
            let word = if keep_alive {
                "keep-alive"@
            } else {
                "close"@
            };
            let last = "Cache-Control: "@ + cache_control + "\r\nConnection: "@ + word + "\r\n"@
                + security + "\r\n"@;
            let encoded = "Content-Encoding: "@ + enc + "\r\n"@;
            let varies = "Vary: Accept-Encoding\r\n"@;
            &&& not_modified_text(etag, None, false, cache_control, keep_alive, security) == front
                + last
            &&& not_modified_text(etag, None, true, cache_control, keep_alive, security) == front
                + varies + last
            &&& not_modified_text(etag, Some(enc), false, cache_control, keep_alive, security)
                == front + encoded + last
            &&& not_modified_text(etag, Some(enc), true, cache_control, keep_alive, security)
                == front + encoded + varies + last
        }),
{
    let front = "HTTP/1.1 304 Not Modified\r\nETag: \""@ + etag + "\"\r\n"@;
    let word = connection_word(keep_alive);
    let last = "Cache-Control: "@ + cache_control + "\r\nConnection: "@ + word + "\r\n"@ + security
        + "\r\n"@;
    let encoded = "Content-Encoding: "@ + enc + "\r\n"@;
    let varies = "Vary: Accept-Encoding\r\n"@;
    assert(not_modified_text(etag, None, false, cache_control, keep_alive, security) =~= front + last);
    assert(not_modified_text(etag, None, true, cache_control, keep_alive, security) =~= front + varies
        + last);
    assert(not_modified_text(etag, Some(enc), false, cache_control, keep_alive, security) =~= front
        + encoded + last);
    assert(not_modified_text(etag, Some(enc), true, cache_control, keep_alive, security) =~= front
        + encoded + varies + last);
}

/// A challenge token comes with word of the connection, and the security headers end
/// its header.
pub proof fn law_tokens_state_their_fields(len: nat, keep_alive: bool, security: Seq<char>)
    ensures
        ({
            let word = if keep_alive {
                "keep-alive"@
            } else {
                "close"@
            };
            ("Connection: "@ + word + "\r\n"@ + security + "\r\n"@).is_suffix_of(
                token_head(len, keep_alive, security),
            )
        }),
{
    let word = connection_word(keep_alive);
    let last = "Connection: "@ + word + "\r\n"@ + security + "\r\n"@;
    reveal_strlit("\r\nCache-Control: no-store\r\nConnection: ");
    reveal_strlit("Connection: ");
    let text = token_head(len, keep_alive, security);
    assert(last =~= text.subrange(text.len() - last.len(), text.len() as int));
}

/// A file on disk is sent from where its chosen form lies, as long as that form is, by
/// the site it belongs to. Where only the header is asked for, or the copy of the
/// client is current, no file is read.
pub proof fn law_files_on_disk_are_sent_from_where_they_lie(
    e: DiskEntry,
    accept_enc: Seq<char>,
    inm: Seq<char>,
    keep_alive: bool,
    is_head: bool,
    site: usize,
    policy: Policy,
)
    ensures
        ({
            let v = disk_choice(e, accept_enc);
            let r = disk_reply(e, accept_enc, inm, keep_alive, is_head, site, policy);
            let current = inm.len() > 0 && lists_tag(inm, v.etag@);
            &&& r is File <==> !current && !is_head
            &&& r matches ReplyModel::File { site: s, head, path, len, keep_alive: k, missing } ==> {
                &&& s == site && path == v.path@ && len == v.len && k == keep_alive
                &&& keep_alive ==> head == v.header_ka@
                &&& missing == policy.errors.internal_error.wire(false, false)
            }
            &&& !current && is_head && keep_alive ==> r == one_write(v.header_ka@, true)
            &&& current ==> starts_with_text(
                r,
                "HTTP/1.1 304 Not Modified\r\nETag: \""@ + v.etag@ + "\"\r\n"@,
            )
        }),
{
    let v = disk_choice(e, accept_enc);
    if inm.len() > 0 && lists_tag(inm, v.etag@) {
        let text = not_modified_text(
            v.etag@,
            encoding_text(v.encoding),
            e.vary,
            e.cache_control@,
            keep_alive,
            policy.security_headers@,
        );
        let front = "HTTP/1.1 304 Not Modified\r\nETag: \""@ + v.etag@ + "\"\r\n"@;
        assert(front =~= text.subrange(0, front.len() as int));
        let bytes = encode_utf8(text);
        assert(bytes =~= bytes.subrange(0, bytes.len() as int));
        lemma_starts(bytes, keep_alive, front, text);
    }
}

} // verus!
