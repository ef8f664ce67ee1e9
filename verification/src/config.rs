//! The configuration file.
//!
//! The format is line-based. Bare `key = value` lines at the top level are
//! server-wide; a `site <host[, host2]> { ... }` block describes one virtual
//! host and may override most of them for itself:
//!
//! ```text
//! listen = [::]:443
//! csp = default-src 'self'          # default for every site
//!
//! site example.com, www.example.com {
//!     root = /var/www/example
//!     cert = /etc/bare-server/tls/example/cert.pem
//!     key  = /etc/bare-server/tls/example/key.pem
//!     csp  = default-src 'self'; img-src *   # overrides the default above
//!
//!     redirect /old    -> /new
//!     redirect /docs/* -> /help/$1
//! }
//! ```
//!
//! Three key classes, enforced so that a directive in the wrong place is an
//! error rather than a silent no-op: server-only (`listen`, `storage`, the
//! shared cache budget, the connection caps), site-only (`root`, `cert`, `key`,
//! `force_ssl`, `canonical_urls`, `redirect`), and the rest, settable at either
//! level, where the server-level value is the default and a site block overrides
//! it.
use std::sync::Arc;

use vstd::pervasive::unreached;
use vstd::prelude::*;
use vstd::slice::slice_subrange;
use vstd::string::StringExecFns;

use crate::redirects::{longest_first, no_rules, rule_added, rule_refused, Redirects, RuleSet};
use crate::text::{
    after, before_last, between, chars_of, control_free, cut, dec_text, find_text, first_run,
    is_control_free, is_word, is_word_ci, lines, lines_of, lower, lower_char, lowered, number,
    opt_text, parse_number, parts, push_chars, push_dec, rcut, rsplit_once, same_str, split,
    split_once, string_of, strings, strip_last, strip_word, texts, to_lower, trim, trimmed, words,
    words_of,
};

verus! {

// ---------------------------------------------------------------------- types

/// Runtime storage backend for site content.
#[derive(Clone, Copy, PartialEq, Eq, Debug, Structural)]
pub enum Storage {
    /// Everything precomputed and held in RAM.
    Memory,
    /// An index in RAM; bodies and their compressed forms on disk, streamed.
    Disk,
}

/// The largest single file that is cached: 256 MiB.
pub const DEF_MAX_FILE_SIZE: usize = 268_435_456;

/// The cache budget over all sites, against the bytes retained: 2 GiB.
pub const DEF_MAX_TOTAL_BYTES: usize = 2_147_483_648;

/// Above this a file gets no brotli form: 8 MiB. Brotli at full quality runs at
/// about 1 MB/s, and nothing is bound until it is done.
pub const DEF_MAX_BROTLI_BYTES: usize = 8_388_608;

/// Above this a file gets no gzip form either: 64 MiB.
pub const DEF_MAX_GZIP_BYTES: usize = 67_108_864;

/// Below this a file is not compressed.
pub const DEF_MIN_COMPRESS_BYTES: usize = 64;

/// Brotli's highest quality.
pub const DEF_BROTLI_QUALITY: u32 = 11;

/// Gzip's highest level.
pub const DEF_GZIP_LEVEL: u32 = 9;

/// URLs that carry no fingerprint are revalidated.
pub const DEF_CACHE_MAX_AGE: u64 = 0;

/// A fingerprinted URL names one exact set of bytes: one year.
pub const DEF_IMMUTABLE_MAX_AGE: u64 = 31_536_000;

/// Two years; 0 disables the header.
pub const DEF_HSTS_MAX_AGE: u64 = 63_072_000;

/// Concurrent connections from one address; 0 lifts the cap.
pub const DEF_MAX_CONNS_PER_IP: usize = 64;

/// The longest deadline in seconds: one day.
pub const MAX_DEADLINE_SECS: u64 = 86_400;

/// Cache and compression settings. At the top level they are the default for
/// every site; a `site` block may override any of them but `max_total_bytes`,
/// which is one budget shared by every site.
#[derive(Clone, Copy)]
pub struct Tuning {
    pub compression: bool,
    pub brotli_quality: u32,
    pub gzip_level: u32,
    pub min_compress_bytes: usize,
    pub max_brotli_bytes: usize,
    pub max_gzip_bytes: usize,
    pub max_file_size: usize,
    pub max_total_bytes: usize,
    pub cache_max_age: u64,
    pub immutable_max_age: u64,
}

/// The settings of a file that sets none of them.
pub open spec fn default_tuning() -> Tuning {
    Tuning {
        compression: true,
        brotli_quality: DEF_BROTLI_QUALITY,
        gzip_level: DEF_GZIP_LEVEL,
        min_compress_bytes: DEF_MIN_COMPRESS_BYTES,
        max_brotli_bytes: DEF_MAX_BROTLI_BYTES,
        max_gzip_bytes: DEF_MAX_GZIP_BYTES,
        max_file_size: DEF_MAX_FILE_SIZE,
        max_total_bytes: DEF_MAX_TOTAL_BYTES,
        cache_max_age: DEF_CACHE_MAX_AGE,
        immutable_max_age: DEF_IMMUTABLE_MAX_AGE,
    }
}

impl Default for Tuning {
    fn default() -> (r: Self)
        ensures
            r == default_tuning(),
    {
        Tuning {
            compression: true,
            brotli_quality: DEF_BROTLI_QUALITY,
            gzip_level: DEF_GZIP_LEVEL,
            min_compress_bytes: DEF_MIN_COMPRESS_BYTES,
            max_brotli_bytes: DEF_MAX_BROTLI_BYTES,
            max_gzip_bytes: DEF_MAX_GZIP_BYTES,
            max_file_size: DEF_MAX_FILE_SIZE,
            max_total_bytes: DEF_MAX_TOTAL_BYTES,
            cache_max_age: DEF_CACHE_MAX_AGE,
            immutable_max_age: DEF_IMMUTABLE_MAX_AGE,
        }
    }
}

/// Response-header policy: the security headers sent on every response.
pub struct HeaderConfig {
    /// 0 disables the `Strict-Transport-Security` header.
    pub hsts_max_age: u64,
    pub hsts_include_subdomains: bool,
    pub hsts_preload: bool,
    /// Empty means no `Content-Security-Policy` header.
    pub csp: String,
}

/// What a [`HeaderConfig`] says.
#[verifier::ext_equal]
pub struct HeaderModel {
    pub hsts_max_age: u64,
    pub hsts_include_subdomains: bool,
    pub hsts_preload: bool,
    pub csp: Seq<char>,
}

impl View for HeaderConfig {
    type V = HeaderModel;

    open spec fn view(&self) -> HeaderModel {
        HeaderModel {
            hsts_max_age: self.hsts_max_age,
            hsts_include_subdomains: self.hsts_include_subdomains,
            hsts_preload: self.hsts_preload,
            csp: self.csp@,
        }
    }
}

impl Clone for HeaderConfig {
    fn clone(&self) -> (r: Self)
        ensures
            r@ == self@,
    {
        HeaderConfig {
            hsts_max_age: self.hsts_max_age,
            hsts_include_subdomains: self.hsts_include_subdomains,
            hsts_preload: self.hsts_preload,
            csp: self.csp.clone(),
        }
    }
}

/// The header policy of a file that sets none of it.
pub open spec fn default_headers() -> HeaderModel {
    HeaderModel {
        hsts_max_age: DEF_HSTS_MAX_AGE,
        hsts_include_subdomains: true,
        hsts_preload: true,
        csp: seq![],
    }
}

impl Default for HeaderConfig {
    fn default() -> (r: Self)
        ensures
            r@ == default_headers(),
    {
        let r = HeaderConfig {
            hsts_max_age: DEF_HSTS_MAX_AGE,
            hsts_include_subdomains: true,
            hsts_preload: true,
            csp: String::new(),
        };
        assert(r.csp@ =~= seq![]);
        r
    }
}

/// The security-header block of every response: four fixed headers, HSTS unless
/// its age is 0, and CSP where one is set. Each line ends in CRLF.
pub open spec fn security_block(h: HeaderModel) -> Seq<char> {
    let s = "X-Content-Type-Options: nosniff\r\n"@ + "X-Frame-Options: SAMEORIGIN\r\n"@
        + "Referrer-Policy: strict-origin-when-cross-origin\r\n"@
        + "Permissions-Policy: camera=(), microphone=(), geolocation=()\r\n"@;
    let s = if h.hsts_max_age > 0 {
        let a = s + "Strict-Transport-Security: max-age="@ + dec_text(h.hsts_max_age as nat);
        let b = if h.hsts_include_subdomains {
            a + "; includeSubDomains"@
        } else {
            a
        };
        let c = if h.hsts_preload {
            b + "; preload"@
        } else {
            b
        };
        c + "\r\n"@
    } else {
        s
    };
    if h.csp.len() > 0 {
        s + "Content-Security-Policy: "@ + h.csp + "\r\n"@
    } else {
        s
    }
}

impl HeaderConfig {
    /// Renders the security-header block. The caller adds the blank line.
    pub fn render(&self) -> (r: String)
        ensures
            r@ == security_block(self@),
    {
        let mut s = "X-Content-Type-Options: nosniff\r\n".to_string();
        s.append("X-Frame-Options: SAMEORIGIN\r\n");
        s.append("Referrer-Policy: strict-origin-when-cross-origin\r\n");
        s.append("Permissions-Policy: camera=(), microphone=(), geolocation=()\r\n");
        if self.hsts_max_age > 0 {
            s.append("Strict-Transport-Security: max-age=");
            push_dec(&mut s, self.hsts_max_age);
            if self.hsts_include_subdomains {
                s.append("; includeSubDomains");
            }
            if self.hsts_preload {
                s.append("; preload");
            }
            s.append("\r\n");
        }
        if chars_of(self.csp.as_str()).len() > 0 {
            s.append("Content-Security-Policy: ");
            s.append(self.csp.as_str());
            s.append("\r\n");
        }
        s
    }
}

// -------------------------------------------------------------- value parsers

/// The multiplier that the last character of a size stands for, and the text it
/// multiplies.
pub open spec fn size_unit(v: Seq<char>) -> (Seq<char>, nat) {
    if v.len() > 0 && lower(v.last()) == 'k' {
        (v.drop_last(), 1024)
    } else if v.len() > 0 && lower(v.last()) == 'm' {
        (v.drop_last(), 1_048_576)
    } else if v.len() > 0 && lower(v.last()) == 'g' {
        (v.drop_last(), 1_073_741_824)
    } else {
        (v, 1)
    }
}

/// A byte size: a plain count, or one with a binary K, M or G suffix.
pub open spec fn size_value(key: Seq<char>, v: Seq<char>) -> Result<nat, Seq<char>> {
    let t = trimmed(v);
    let (digits, unit) = size_unit(t);
    match number(trimmed(digits), usize::MAX as nat) {
        None => Err(key + ": expected a byte size like 8M or 1048576 (got: "@ + t + ")"@),
        Some(n) => if n * unit <= usize::MAX {
            Ok(n * unit)
        } else {
            Err(key + ": size overflows (got: "@ + t + ")"@)
        },
    }
}

/// `key`, then a message around `v`.
fn complain(key: &str, before: &str, v: &[char], after: &str) -> (r: String)
    ensures
        r@ == key@ + before@ + v@ + after@,
{
    let mut s = key.to_string();
    s.append(before);
    push_chars(&mut s, v);
    s.append(after);
    s
}

/// Reads a byte size.
pub fn parse_size(key: &str, v: &str) -> (r: Result<usize, String>)
    ensures
        match r {
            Ok(n) => size_value(key@, v@) == Ok::<nat, Seq<char>>(n as nat),
            Err(e) => size_value(key@, v@) == Err::<nat, Seq<char>>(e@),
        },
{
    let chars = chars_of(v);
    let t = trim(chars.as_slice());
    let mut digits: &[char] = t;
    let mut unit: usize = 1;
    if t.len() > 0 {
        let last = lower_char(t[t.len() - 1]);
        if last == 'k' {
            digits = slice_subrange(t, 0, t.len() - 1);
            unit = 1024;
        } else if last == 'm' {
            digits = slice_subrange(t, 0, t.len() - 1);
            unit = 1_048_576;
        } else if last == 'g' {
            digits = slice_subrange(t, 0, t.len() - 1);
            unit = 1_073_741_824;
        }
    }
    assert(size_unit(t@).1 == unit && digits@ =~= size_unit(t@).0);
    match parse_number(trim(digits), usize::MAX as u64) {
        None => Err(
            complain(key, ": expected a byte size like 8M or 1048576 (got: ", t, ")"),
        ),
        Some(n) => {
            let count: usize = n as usize;
            match count.checked_mul(unit) {
                Some(size) => Ok(size),
                None => Err(complain(key, ": size overflows (got: ", t, ")")),
            }
        },
    }
}

/// A switch.
pub open spec fn bool_value(key: Seq<char>, v: Seq<char>) -> Result<bool, Seq<char>> {
    let t = lowered(trimmed(v));
    if t == "on"@ || t == "true"@ || t == "yes"@ || t == "1"@ {
        Ok(true)
    } else if t == "off"@ || t == "false"@ || t == "no"@ || t == "0"@ {
        Ok(false)
    } else {
        Err(key + ": expected on/off (got: "@ + v + ")"@)
    }
}

/// Reads a switch.
pub fn parse_bool(key: &str, v: &str) -> (r: Result<bool, String>)
    ensures
        match r {
            Ok(b) => bool_value(key@, v@) == Ok::<bool, Seq<char>>(b),
            Err(e) => bool_value(key@, v@) == Err::<bool, Seq<char>>(e@),
        },
{
    let chars = chars_of(v);
    let lower = to_lower(trim(chars.as_slice()));
    let t = lower.as_slice();
    if is_word(t, "on") || is_word(t, "true") || is_word(t, "yes") || is_word(t, "1") {
        Ok(true)
    } else if is_word(t, "off") || is_word(t, "false") || is_word(t, "no") || is_word(t, "0") {
        Ok(false)
    } else {
        Err(complain(key, ": expected on/off (got: ", chars.as_slice(), ")"))
    }
}

/// A number within bounds.
pub open spec fn ranged_value(key: Seq<char>, v: Seq<char>, lo: u32, hi: u32) -> Result<
    u32,
    Seq<char>,
> {
    match number(trimmed(v), u32::MAX as nat) {
        None => Err(
            key + ": expected a number "@ + dec_text(lo as nat) + "-"@ + dec_text(hi as nat)
                + " (got: "@ + v + ")"@,
        ),
        Some(n) => if n < lo || n > hi {
            Err(
                key + ": must be "@ + dec_text(lo as nat) + "-"@ + dec_text(hi as nat) + " (got: "@
                    + dec_text(n) + ")"@,
            )
        } else {
            Ok(n as u32)
        },
    }
}

/// Reads a number within bounds.
pub fn parse_ranged(key: &str, v: &str, lo: u32, hi: u32) -> (r: Result<u32, String>)
    ensures
        match r {
            Ok(n) => ranged_value(key@, v@, lo, hi) == Ok::<u32, Seq<char>>(n),
            Err(e) => ranged_value(key@, v@, lo, hi) == Err::<u32, Seq<char>>(e@),
        },
{
    let chars = chars_of(v);
    match parse_number(trim(chars.as_slice()), u32::MAX as u64) {
        None => {
            let mut s = key.to_string();
            s.append(": expected a number ");
            push_dec(&mut s, lo as u64);
            s.append("-");
            push_dec(&mut s, hi as u64);
            s.append(" (got: ");
            s.append(v);
            s.append(")");
            Err(s)
        },
        Some(n) => {
            if n < lo as u64 || n > hi as u64 {
                let mut s = key.to_string();
                s.append(": must be ");
                push_dec(&mut s, lo as u64);
                s.append("-");
                push_dec(&mut s, hi as u64);
                s.append(" (got: ");
                push_dec(&mut s, n);
                s.append(")");
                Err(s)
            } else {
                Ok(n as u32)
            }
        },
    }
}

/// A duration in seconds, of any length.
pub open spec fn secs_value(key: Seq<char>, v: Seq<char>) -> Result<u64, Seq<char>> {
    match number(trimmed(v), u64::MAX as nat) {
        None => Err(key + ": expected a number of seconds (got: "@ + v + ")"@),
        Some(n) => Ok(n as u64),
    }
}

/// Reads a duration in seconds.
pub fn parse_secs(key: &str, v: &str) -> (r: Result<u64, String>)
    ensures
        match r {
            Ok(n) => secs_value(key@, v@) == Ok::<u64, Seq<char>>(n),
            Err(e) => secs_value(key@, v@) == Err::<u64, Seq<char>>(e@),
        },
{
    let chars = chars_of(v);
    match parse_number(trim(chars.as_slice()), u64::MAX) {
        None => Err(complain(key, ": expected a number of seconds (got: ", chars.as_slice(), ")")),
        Some(n) => Ok(n),
    }
}

/// A duration that becomes a deadline, and so is bounded by a day.
pub open spec fn deadline_value(key: Seq<char>, v: Seq<char>) -> Result<u64, Seq<char>> {
    match secs_value(key, v) {
        Err(e) => Err(e),
        Ok(n) => if n > MAX_DEADLINE_SECS {
            Err(
                key + ": at most "@ + dec_text(MAX_DEADLINE_SECS as nat) + " seconds (one day), got "@
                    + dec_text(n as nat),
            )
        } else {
            Ok(n)
        },
    }
}

/// Reads a duration that becomes a deadline.
pub fn parse_deadline_secs(key: &str, v: &str) -> (r: Result<u64, String>)
    ensures
        match r {
            Ok(n) => deadline_value(key@, v@) == Ok::<u64, Seq<char>>(n) && n <= MAX_DEADLINE_SECS,
            Err(e) => deadline_value(key@, v@) == Err::<u64, Seq<char>>(e@),
        },
{
    match parse_secs(key, v) {
        Err(e) => Err(e),
        Ok(n) => {
            if n > MAX_DEADLINE_SECS {
                let mut s = key.to_string();
                s.append(": at most ");
                push_dec(&mut s, MAX_DEADLINE_SECS);
                s.append(" seconds (one day), got ");
                push_dec(&mut s, n);
                Err(s)
            } else {
                Ok(n)
            }
        },
    }
}

/// A count.
pub open spec fn count_value(key: Seq<char>, v: Seq<char>) -> Result<usize, Seq<char>> {
    match number(trimmed(v), usize::MAX as nat) {
        None => Err(key + ": expected a non-negative integer (got: "@ + v + ")"@),
        Some(n) => Ok(n as usize),
    }
}

/// Reads a count.
pub fn parse_count(key: &str, v: &str) -> (r: Result<usize, String>)
    ensures
        match r {
            Ok(n) => count_value(key@, v@) == Ok::<usize, Seq<char>>(n),
            Err(e) => count_value(key@, v@) == Err::<usize, Seq<char>>(e@),
        },
{
    let chars = chars_of(v);
    match parse_number(trim(chars.as_slice()), usize::MAX as u64) {
        None => Err(
            complain(key, ": expected a non-negative integer (got: ", chars.as_slice(), ")"),
        ),
        Some(n) => Ok(n as usize),
    }
}

/// A value destined for a response header: one with no control character.
pub open spec fn header_value(key: Seq<char>, v: Seq<char>) -> Result<Seq<char>, Seq<char>> {
    if control_free(trimmed(v)) {
        Ok(trimmed(v))
    } else {
        Err(key + ": control characters are not allowed in a header value"@)
    }
}

/// Reads a value destined for a response header.
pub fn parse_header_value(key: &str, v: &str) -> (r: Result<String, String>)
    ensures
        match r {
            Ok(s) => header_value(key@, v@) == Ok::<Seq<char>, Seq<char>>(s@),
            Err(e) => header_value(key@, v@) == Err::<Seq<char>, Seq<char>>(e@),
        },
{
    let chars = chars_of(v);
    let t = trim(chars.as_slice());
    if is_control_free(t) {
        Ok(string_of(t))
    } else {
        let mut s = key.to_string();
        s.append(": control characters are not allowed in a header value");
        Err(s)
    }
}

// ------------------------------------------------------------ shared settings

/// The settings that are valid both at the top level and in a `site` block.
#[verifier::ext_equal]
pub struct Shared {
    pub tuning: Tuning,
    pub headers: HeaderModel,
}

/// The settings after `k = v`. `None` stands for a key that is not one of them.
pub open spec fn shared_set(s: Shared, k: Seq<char>, v: Seq<char>) -> Result<
    Option<Shared>,
    Seq<char>,
> {
    let t = s.tuning;
    let h = s.headers;
    if k == "compression"@ {
        match bool_value(k, v) {
            Ok(x) => Ok(Some(Shared { tuning: Tuning { compression: x, ..t }, ..s })),
            Err(e) => Err(e),
        }
    } else if k == "brotli_quality"@ {
        match ranged_value(k, v, 0, 11) {
            Ok(x) => Ok(Some(Shared { tuning: Tuning { brotli_quality: x, ..t }, ..s })),
            Err(e) => Err(e),
        }
    } else if k == "gzip_level"@ {
        match ranged_value(k, v, 0, 9) {
            Ok(x) => Ok(Some(Shared { tuning: Tuning { gzip_level: x, ..t }, ..s })),
            Err(e) => Err(e),
        }
    } else if k == "min_compress_bytes"@ {
        match size_value(k, v) {
            Ok(x) => Ok(
                Some(Shared { tuning: Tuning { min_compress_bytes: x as usize, ..t }, ..s }),
            ),
            Err(e) => Err(e),
        }
    } else if k == "max_brotli_bytes"@ {
        match size_value(k, v) {
            Ok(x) => Ok(Some(Shared { tuning: Tuning { max_brotli_bytes: x as usize, ..t }, ..s })),
            Err(e) => Err(e),
        }
    } else if k == "max_gzip_bytes"@ {
        match size_value(k, v) {
            Ok(x) => Ok(Some(Shared { tuning: Tuning { max_gzip_bytes: x as usize, ..t }, ..s })),
            Err(e) => Err(e),
        }
    } else if k == "max_file_size"@ {
        match size_value(k, v) {
            Ok(x) => Ok(Some(Shared { tuning: Tuning { max_file_size: x as usize, ..t }, ..s })),
            Err(e) => Err(e),
        }
    } else if k == "cache_max_age"@ {
        match secs_value(k, v) {
            Ok(x) => Ok(Some(Shared { tuning: Tuning { cache_max_age: x, ..t }, ..s })),
            Err(e) => Err(e),
        }
    } else if k == "immutable_max_age"@ {
        match secs_value(k, v) {
            Ok(x) => Ok(Some(Shared { tuning: Tuning { immutable_max_age: x, ..t }, ..s })),
            Err(e) => Err(e),
        }
    } else if k == "hsts_max_age"@ {
        match secs_value(k, v) {
            Ok(x) => Ok(Some(Shared { headers: HeaderModel { hsts_max_age: x, ..h }, ..s })),
            Err(e) => Err(e),
        }
    } else if k == "hsts_include_subdomains"@ {
        match bool_value(k, v) {
            Ok(x) => Ok(
                Some(Shared { headers: HeaderModel { hsts_include_subdomains: x, ..h }, ..s }),
            ),
            Err(e) => Err(e),
        }
    } else if k == "hsts_preload"@ {
        match bool_value(k, v) {
            Ok(x) => Ok(Some(Shared { headers: HeaderModel { hsts_preload: x, ..h }, ..s })),
            Err(e) => Err(e),
        }
    } else if k == "csp"@ {
        match header_value(k, v) {
            Ok(x) => Ok(Some(Shared { headers: HeaderModel { csp: x, ..h }, ..s })),
            Err(e) => Err(e),
        }
    } else {
        Ok(None)
    }
}

/// Applies `k = v` where `k` is valid at both levels. `false` stands for a key
/// that is not, so that each caller can report the right error for its context.
/// Nothing changes then, nor where the value is refused.
pub fn apply_shared(t: &mut Tuning, h: &mut HeaderConfig, k: &str, v: &str) -> (r: Result<
    bool,
    String,
>)
    ensures
        ({
            let before = Shared { tuning: *old(t), headers: old(h)@ };
            let now = Shared { tuning: *final(t), headers: final(h)@ };
            match r {
                Ok(true) => shared_set(before, k@, v@) == Ok::<Option<Shared>, Seq<char>>(
                    Some(now),
                ),
                Ok(false) => shared_set(before, k@, v@) == Ok::<Option<Shared>, Seq<char>>(None)
                    && now == before,
                Err(e) => shared_set(before, k@, v@) == Err::<Option<Shared>, Seq<char>>(e@) && now
                    == before,
            }
        }),
{
    if same_str(k, "compression") {
        match parse_bool(k, v) {
            Ok(x) => t.compression = x,
            Err(e) => return Err(e),
        }
    } else if same_str(k, "brotli_quality") {
        match parse_ranged(k, v, 0, 11) {
            Ok(x) => t.brotli_quality = x,
            Err(e) => return Err(e),
        }
    } else if same_str(k, "gzip_level") {
        match parse_ranged(k, v, 0, 9) {
            Ok(x) => t.gzip_level = x,
            Err(e) => return Err(e),
        }
    } else if same_str(k, "min_compress_bytes") {
        match parse_size(k, v) {
            Ok(x) => t.min_compress_bytes = x,
            Err(e) => return Err(e),
        }
    } else if same_str(k, "max_brotli_bytes") {
        match parse_size(k, v) {
            Ok(x) => t.max_brotli_bytes = x,
            Err(e) => return Err(e),
        }
    } else if same_str(k, "max_gzip_bytes") {
        match parse_size(k, v) {
            Ok(x) => t.max_gzip_bytes = x,
            Err(e) => return Err(e),
        }
    } else if same_str(k, "max_file_size") {
        match parse_size(k, v) {
            Ok(x) => t.max_file_size = x,
            Err(e) => return Err(e),
        }
    } else if same_str(k, "cache_max_age") {
        match parse_secs(k, v) {
            Ok(x) => t.cache_max_age = x,
            Err(e) => return Err(e),
        }
    } else if same_str(k, "immutable_max_age") {
        match parse_secs(k, v) {
            Ok(x) => t.immutable_max_age = x,
            Err(e) => return Err(e),
        }
    } else if same_str(k, "hsts_max_age") {
        match parse_secs(k, v) {
            Ok(x) => h.hsts_max_age = x,
            Err(e) => return Err(e),
        }
    } else if same_str(k, "hsts_include_subdomains") {
        match parse_bool(k, v) {
            Ok(x) => h.hsts_include_subdomains = x,
            Err(e) => return Err(e),
        }
    } else if same_str(k, "hsts_preload") {
        match parse_bool(k, v) {
            Ok(x) => h.hsts_preload = x,
            Err(e) => return Err(e),
        }
    } else if same_str(k, "csp") {
        match parse_header_value(k, v) {
            Ok(x) => h.csp = x,
            Err(e) => return Err(e),
        }
    } else {
        return Ok(false);
    }
    Ok(true)
}

/// Why a key only makes sense once for the whole process, for the keys that do.
pub open spec fn server_only(k: Seq<char>) -> Option<Seq<char>> {
    if k == "listen"@ || k == "listen_http"@ {
        Some("the listeners are process-wide"@)
    } else if k == "max_total_bytes"@ {
        Some("the cache budget is one pool shared by every site"@)
    } else if k == "storage"@ || k == "disk_cache"@ {
        Some("the storage backend is process-wide"@)
    } else if k == "max_conns_per_ip"@ || k == "max_response_secs"@ {
        Some("connection limits are enforced per listener, before the Host is known"@)
    } else {
        None
    }
}

/// Names why a key belongs to the whole process, so that a site block can say
/// more than "unknown".
pub fn server_only_reason(k: &str) -> (r: Option<&'static str>)
    ensures
        match r {
            Some(why) => server_only(k@) == Some(why@),
            None => server_only(k@) is None,
        },
{
    if same_str(k, "listen") || same_str(k, "listen_http") {
        Some("the listeners are process-wide")
    } else if same_str(k, "max_total_bytes") {
        Some("the cache budget is one pool shared by every site")
    } else if same_str(k, "storage") || same_str(k, "disk_cache") {
        Some("the storage backend is process-wide")
    } else if same_str(k, "max_conns_per_ip") || same_str(k, "max_response_secs") {
        Some("connection limits are enforced per listener, before the Host is known")
    } else {
        None
    }
}

/// The keys that only a `site` block owns.
pub open spec fn site_only(k: Seq<char>) -> bool {
    k == "root"@ || k == "cert"@ || k == "key"@ || k == "force_ssl"@ || k == "canonical_urls"@ || k
        == "redirect"@
}

/// Decides [`site_only`].
pub fn is_site_only(k: &str) -> (r: bool)
    ensures
        r == site_only(k@),
{
    same_str(k, "root") || same_str(k, "cert") || same_str(k, "key") || same_str(k, "force_ssl")
        || same_str(k, "canonical_urls") || same_str(k, "redirect")
}

// ----------------------------------------------------------------- complaints

/// A message with the line it is about.
pub open spec fn at_line(line_no: nat, msg: Seq<char>) -> Seq<char> {
    "config line "@ + dec_text(line_no) + ": "@ + msg
}

/// Puts a line number before a message.
pub fn at(line_no: usize, msg: &str) -> (r: String)
    ensures
        r@ == at_line(line_no as nat, msg@),
{
    let mut s = "config line ".to_string();
    push_dec(&mut s, line_no as u64);
    s.append(": ");
    s.append(msg);
    s
}

/// What is said of a `site = host root cert key [flag]` line: the block that
/// means the same, where the line has that many words.
pub open spec fn site_line_advice(v: Seq<char>) -> Seq<char> {
    let p = words_of(v);
    let s = "`site = ...` is not valid: a site is a block"@;
    if 4 <= p.len() <= 5 {
        let s = s + ":\n\n"@ + "    site "@ + p[0] + " {\n"@ + "        root = "@ + p[1] + "\n"@
            + "        cert = "@ + p[2] + "\n"@ + "        key  = "@ + p[3] + "\n"@;
        let s = if p.len() == 5 && p[4] == "allow_http"@ {
            s + "        force_ssl = off\n"@
        } else {
            s
        };
        s + "    }"@
    } else {
        s + ". See server.conf.example"@
    }
}

/// Rewrites a `site = ...` line into the block that means the same.
pub fn explain_site_line(v: &str) -> (r: String)
    ensures
        r@ == site_line_advice(v@),
{
    let chars = chars_of(v);
    let p = words(chars.as_slice());
    assert(texts(p@) == words_of(v@));
    let mut s = "`site = ...` is not valid: a site is a block".to_string();
    if 4 <= p.len() && p.len() <= 5 {
        s.append(":\n\n");
        s.append("    site ");
        push_chars(&mut s, p[0]);
        s.append(" {\n");
        s.append("        root = ");
        push_chars(&mut s, p[1]);
        s.append("\n");
        s.append("        cert = ");
        push_chars(&mut s, p[2]);
        s.append("\n");
        s.append("        key  = ");
        push_chars(&mut s, p[3]);
        s.append("\n");
        if p.len() == 5 && is_word(p[4], "allow_http") {
            s.append("        force_ssl = off\n");
        }
        s.append("    }");
    } else {
        s.append(". See server.conf.example");
    }
    s
}

/// What is said of a `redirect = from to cert key` line: the block that means
/// the same, where the line has that many words.
pub open spec fn redirect_line_advice(v: Seq<char>) -> Seq<char> {
    let p = words_of(v);
    let s =
        "`redirect = ...` is not valid here: a redirect-only host is a site block with no root"@;
    if p.len() == 4 {
        s + ":\n\n"@ + "    site "@ + p[0] + " {\n"@ + "        cert = "@ + p[2] + "\n"@
            + "        key  = "@ + p[3] + "\n"@ + "        redirect * -> https://"@ + p[1] + "$0\n"@
            + "    }"@
    } else {
        s + ". See server.conf.example"@
    }
}

/// Rewrites a `redirect = ...` line into the block that means the same.
pub fn explain_redirect_line(v: &str) -> (r: String)
    ensures
        r@ == redirect_line_advice(v@),
{
    let chars = chars_of(v);
    let p = words(chars.as_slice());
    assert(texts(p@) == words_of(v@));
    let mut s =
        "`redirect = ...` is not valid here: a redirect-only host is a site block with no root".to_string();
    if p.len() == 4 {
        s.append(":\n\n");
        s.append("    site ");
        push_chars(&mut s, p[0]);
        s.append(" {\n");
        s.append("        cert = ");
        push_chars(&mut s, p[2]);
        s.append("\n");
        s.append("        key  = ");
        push_chars(&mut s, p[3]);
        s.append("\n");
        s.append("        redirect * -> https://");
        push_chars(&mut s, p[1]);
        s.append("$0\n");
        s.append("    }");
    } else {
        s.append(". See server.conf.example");
    }
    s
}

// -------------------------------------------------------------- configuration

/// One virtual host: its domain names, optional document root, TLS certificate
/// and key, redirect rules, and its own resolved copy of every per-site setting.
pub struct SiteConfig {
    /// The names share one cache, one rule set and one certificate.
    pub hosts: Vec<String>,
    /// `None` for a host that only issues redirects. Such a host still
    /// terminates TLS, so it needs a certificate too.
    pub root: Option<String>,
    pub cert: String,
    pub key: String,
    /// Answer this site's plain-HTTP traffic with a redirect to HTTPS.
    pub force_ssl: bool,
    /// Redirect the `.html` spellings of a URL to the directory form.
    pub canonical_urls: bool,
    pub redirects: Arc<Redirects>,
    pub tuning: Tuning,
    pub headers: HeaderConfig,
}

/// What a [`SiteConfig`] says.
#[verifier::ext_equal]
pub struct SiteModel {
    pub hosts: Seq<Seq<char>>,
    pub root: Option<Seq<char>>,
    pub cert: Seq<char>,
    pub key: Seq<char>,
    pub force_ssl: bool,
    pub canonical_urls: bool,
    pub redirects: RuleSet,
    pub tuning: Tuning,
    pub headers: HeaderModel,
}

impl View for SiteConfig {
    type V = SiteModel;

    open spec fn view(&self) -> SiteModel {
        SiteModel {
            hosts: strings(self.hosts@),
            root: opt_text(self.root),
            cert: self.cert@,
            key: self.key@,
            force_ssl: self.force_ssl,
            canonical_urls: self.canonical_urls,
            redirects: self.redirects@,
            tuning: self.tuning,
            headers: self.headers@,
        }
    }
}

/// A whole configuration file, resolved.
pub struct Config {
    pub host: String,
    pub port: String,
    /// The plain-HTTP listener; empty where there is none.
    pub http_host: String,
    pub http_port: String,
    pub sites: Vec<SiteConfig>,
    /// The headers of responses that belong to no site.
    pub headers: HeaderConfig,
    /// Concurrent connections from one source address; 0 for no limit.
    pub max_conns_per_ip: usize,
    /// Wall-clock cap in seconds on one response body; 0 for none.
    pub max_response_secs: u64,
    pub storage: Storage,
    /// Where the on-disk snapshot goes in disk mode.
    pub disk_cache: Option<String>,
}

/// What a [`Config`] says.
#[verifier::ext_equal]
pub struct ConfigModel {
    pub host: Seq<char>,
    pub port: Seq<char>,
    pub http_host: Seq<char>,
    pub http_port: Seq<char>,
    pub sites: Seq<SiteModel>,
    pub headers: HeaderModel,
    pub max_conns_per_ip: usize,
    pub max_response_secs: u64,
    pub storage: Storage,
    pub disk_cache: Option<Seq<char>>,
}

/// What a list of sites says.
pub open spec fn site_models(v: Seq<SiteConfig>) -> Seq<SiteModel> {
    Seq::new(v.len(), |i: int| v[i]@)
}

impl View for Config {
    type V = ConfigModel;

    open spec fn view(&self) -> ConfigModel {
        ConfigModel {
            host: self.host@,
            port: self.port@,
            http_host: self.http_host@,
            http_port: self.http_port@,
            sites: site_models(self.sites@),
            headers: self.headers@,
            max_conns_per_ip: self.max_conns_per_ip,
            max_response_secs: self.max_response_secs,
            storage: self.storage,
            disk_cache: opt_text(self.disk_cache),
        }
    }
}

// -------------------------------------------------------------- reading lines

/// A site block while it is read. Its setting overrides are kept as they stand,
/// each with its line, and applied once the whole file is known: that makes the
/// file order-independent.
#[verifier::ext_equal]
pub struct PendingModel {
    pub line: nat,
    pub hosts: Seq<Seq<char>>,
    pub root: Option<Seq<char>>,
    pub cert: Option<Seq<char>>,
    pub key: Option<Seq<char>>,
    pub force_ssl: bool,
    pub canonical_urls: bool,
    pub redirects: RuleSet,
    pub overrides: Seq<(nat, Seq<char>, Seq<char>)>,
}

/// What is known of a file after some of its lines.
#[verifier::ext_equal]
pub struct Reading {
    pub host: Seq<char>,
    pub port: Seq<char>,
    pub http_host: Seq<char>,
    pub http_port: Seq<char>,
    pub pending: Seq<PendingModel>,
    pub shared: Shared,
    pub max_conns_per_ip: usize,
    pub max_response_secs: u64,
    pub storage: Storage,
    pub disk_cache: Option<Seq<char>>,
    /// The block that is open.
    pub cur: Option<PendingModel>,
}

/// What is known before the first line.
pub open spec fn nothing_read() -> Reading {
    Reading {
        host: seq![],
        port: seq![],
        http_host: seq![],
        http_port: seq![],
        pending: seq![],
        shared: Shared { tuning: default_tuning(), headers: default_headers() },
        max_conns_per_ip: DEF_MAX_CONNS_PER_IP,
        max_response_secs: 0,
        storage: Storage::Memory,
        disk_cache: None,
        cur: None,
    }
}

/// The white space after which a `#` starts a comment.
pub open spec fn is_ascii_white(c: char) -> bool {
    c == ' ' || c == '\t' || c == '\n' || c == '\x0C' || c == '\r'
}

/// How much of a line comes before its comment. A `#` starts one at the start of
/// the line or after white space, so that a value may hold a `#` of its own.
pub open spec fn comment_start(raw: Seq<char>, i: int) -> int
    decreases raw.len() - i,
{
    if i < 0 || i >= raw.len() {
        raw.len() as int
    } else if raw[i] == '#' && (i == 0 || is_ascii_white(raw[i - 1])) {
        i
    } else {
        comment_start(raw, i + 1)
    }
}

/// A line as it counts: without its comment and the white space around it.
pub open spec fn bare_line(raw: Seq<char>) -> Seq<char> {
    trimmed(raw.take(comment_start(raw, 0)))
}

/// The host names of a `site` line: separated by commas, lower-cased, the empty
/// ones left out.
pub open spec fn host_names(listed: Seq<Seq<char>>) -> Seq<Seq<char>>
    decreases listed.len(),
{
    if listed.len() == 0 {
        seq![]
    } else {
        let front = host_names(listed.drop_last());
        let name = lowered(trimmed(listed.last()));
        if name.len() == 0 {
            front
        } else {
            front.push(name)
        }
    }
}

/// A closing brace.
pub open spec fn block_closed(st: Reading, n: nat) -> Result<Reading, Seq<char>> {
    match st.cur {
        None => Err(at_line(n, "stray '}' outside a site block"@)),
        Some(site) => Ok(
            Reading {
                pending: st.pending.push(
                    PendingModel {
                        redirects: RuleSet {
                            prefix: longest_first(site.redirects.prefix),
                            ..site.redirects
                        },
                        ..site
                    },
                ),
                cur: None,
                ..st
            },
        ),
    }
}

/// A `site` line; `rest` is what follows the word.
pub open spec fn block_opened(st: Reading, n: nat, rest: Seq<char>) -> Result<Reading, Seq<char>> {
    if rest.len() > 0 && rest[0] == '=' {
        Err(at_line(n, site_line_advice(trimmed(rest.skip(1)))))
    } else if st.cur is Some {
        Err(at_line(n, "site blocks cannot nest"@))
    } else {
        match before_last(rest, '{') {
            None => Err(at_line(n, "a site must open a block: site <host[, host2]> {"@)),
            Some(listed) => {
                let hosts = host_names(parts(listed, ','));
                if hosts.len() == 0 {
                    Err(at_line(n, "site has no host names"@))
                } else {
                    Ok(
                        Reading {
                            cur: Some(
                                PendingModel {
                                    line: n,
                                    hosts,
                                    root: None,
                                    cert: None,
                                    key: None,
                                    force_ssl: true,
                                    canonical_urls: false,
                                    redirects: no_rules(),
                                    overrides: seq![],
                                },
                            ),
                            ..st
                        },
                    )
                }
            },
        }
    }
}

/// A `redirect` line; `rest` is what follows the word.
pub open spec fn rule_listed(st: Reading, n: nat, rest: Seq<char>) -> Result<Reading, Seq<char>> {
    if rest.len() > 0 && rest[0] == '=' {
        Err(at_line(n, redirect_line_advice(trimmed(rest.skip(1)))))
    } else {
        match st.cur {
            None => Err(at_line(n, "redirect rules belong inside a site block"@)),
            Some(site) => match first_run(rest, "->"@) {
                None => Err(at_line(n, "redirect must be: redirect <pattern> -> <target>"@)),
                Some(i) => {
                    let pattern = trimmed(rest.take(i));
                    let target = trimmed(rest.skip(i + 2));
                    if pattern.len() == 0 {
                        Err(at_line(n, "redirect: empty pattern"@))
                    } else {
                        match rule_refused(site.redirects, pattern, target) {
                            Some(e) => Err(at_line(n, e)),
                            None => Ok(
                                Reading {
                                    cur: Some(
                                        PendingModel {
                                            redirects: rule_added(site.redirects, pattern, target),
                                            ..site
                                        },
                                    ),
                                    ..st
                                },
                            ),
                        }
                    }
                },
            },
        }
    }
}

/// A `key = value` line inside a block.
pub open spec fn site_setting(
    st: Reading,
    site: PendingModel,
    n: nat,
    k: Seq<char>,
    v: Seq<char>,
) -> Result<Reading, Seq<char>> {
    if k == "root"@ {
        Ok(Reading { cur: Some(PendingModel { root: Some(v), ..site }), ..st })
    } else if k == "cert"@ {
        Ok(Reading { cur: Some(PendingModel { cert: Some(v), ..site }), ..st })
    } else if k == "key"@ {
        Ok(Reading { cur: Some(PendingModel { key: Some(v), ..site }), ..st })
    } else if k == "force_ssl"@ {
        match bool_value(k, v) {
            Ok(x) => Ok(Reading { cur: Some(PendingModel { force_ssl: x, ..site }), ..st }),
            Err(e) => Err(at_line(n, e)),
        }
    } else if k == "canonical_urls"@ {
        match bool_value(k, v) {
            Ok(x) => Ok(Reading { cur: Some(PendingModel { canonical_urls: x, ..site }), ..st }),
            Err(e) => Err(at_line(n, e)),
        }
    } else {
        match server_only(k) {
            Some(why) => Err(
                at_line(n, k + " is a server-level setting ("@ + why + ")"@),
            ),
            None => match shared_set(st.shared, k, v) {
                Err(e) => Err(at_line(n, e)),
                Ok(None) => Err(at_line(n, "unknown site setting: "@ + k)),
                Ok(Some(_)) => Ok(
                    Reading {
                        cur: Some(
                            PendingModel { overrides: site.overrides.push((n, k, v)), ..site },
                        ),
                        ..st
                    },
                ),
            },
        }
    }
}

/// A listener's address, split at the last colon so that IPv6 literals survive.
pub open spec fn listener(key: Seq<char>, example: Seq<char>, n: nat, v: Seq<char>) -> Result<
    (Seq<char>, Seq<char>),
    Seq<char>,
> {
    match rcut(v, ':') {
        None => Err(at_line(n, key + " must be host:port"@)),
        Some((h, p)) => if trimmed(h).len() == 0 || trimmed(p).len() == 0 {
            Err(at_line(n, key + " must be host:port, e.g. "@ + example))
        } else {
            Ok((h, p))
        },
    }
}

/// A `key = value` line outside every block.
pub open spec fn server_setting(st: Reading, n: nat, k: Seq<char>, v: Seq<char>) -> Result<
    Reading,
    Seq<char>,
> {
    if k == "listen"@ {
        match listener("listen"@, "[::]:443"@, n, v) {
            Ok((h, p)) => Ok(Reading { host: h, port: p, ..st }),
            Err(e) => Err(e),
        }
    } else if k == "listen_http"@ {
        match listener("listen_http"@, "[::]:80"@, n, v) {
            Ok((h, p)) => Ok(Reading { http_host: h, http_port: p, ..st }),
            Err(e) => Err(e),
        }
    } else if k == "max_total_bytes"@ {
        match size_value(k, v) {
            Ok(x) => Ok(
                Reading {
                    shared: Shared {
                        tuning: Tuning { max_total_bytes: x as usize, ..st.shared.tuning },
                        ..st.shared
                    },
                    ..st
                },
            ),
            Err(e) => Err(at_line(n, e)),
        }
    } else if k == "max_conns_per_ip"@ {
        match count_value(k, v) {
            Ok(x) => Ok(Reading { max_conns_per_ip: x, ..st }),
            Err(e) => Err(at_line(n, e)),
        }
    } else if k == "max_response_secs"@ {
        match deadline_value(k, v) {
            Ok(x) => Ok(Reading { max_response_secs: x, ..st }),
            Err(e) => Err(at_line(n, e)),
        }
    } else if k == "storage"@ {
        let word = lowered(trimmed(v));
        if word == "memory"@ || word == "mem"@ || word == "ram"@ {
            Ok(Reading { storage: Storage::Memory, ..st })
        } else if word == "disk"@ {
            Ok(Reading { storage: Storage::Disk, ..st })
        } else {
            Err(at_line(n, "storage: expected memory or disk (got: "@ + v + ")"@))
        }
    } else if k == "disk_cache"@ {
        Ok(Reading { disk_cache: Some(trimmed(v)), ..st })
    } else {
        match shared_set(st.shared, k, v) {
            Err(e) => Err(at_line(n, e)),
            Ok(Some(shared)) => Ok(Reading { shared, ..st }),
            Ok(None) => if site_only(k) {
                Err(at_line(n, k + " belongs inside a site block"@))
            } else {
                Err(at_line(n, "unknown config key: "@ + k))
            },
        }
    }
}

/// What follows a keyword and one blank.
pub open spec fn after_word(line: Seq<char>, spaced: Seq<char>, tabbed: Seq<char>) -> Option<
    Seq<char>,
> {
    match after(line, spaced) {
        Some(rest) => Some(rest),
        None => after(line, tabbed),
    }
}

/// One line.
pub open spec fn line_read(st: Reading, n: nat, raw: Seq<char>) -> Result<Reading, Seq<char>> {
    let line = bare_line(raw);
    if line.len() == 0 {
        Ok(st)
    } else if line == "}"@ {
        block_closed(st, n)
    } else {
        match after_word(line, "site "@, "site\t"@) {
            Some(rest) => block_opened(st, n, trimmed(rest)),
            None => match after_word(line, "redirect "@, "redirect\t"@) {
                Some(rest) => rule_listed(st, n, trimmed(rest)),
                None => match cut(line, '=') {
                    None => Err(at_line(n, "malformed config line: "@ + line)),
                    Some((k, v)) => match st.cur {
                        Some(site) => site_setting(st, site, n, trimmed(k), trimmed(v)),
                        None => server_setting(st, n, trimmed(k), trimmed(v)),
                    },
                },
            },
        }
    }
}

/// The first `count` lines.
pub open spec fn lines_read(text: Seq<Seq<char>>, count: nat) -> Result<Reading, Seq<char>>
    decreases count,
{
    if count == 0 {
        Ok(nothing_read())
    } else {
        match lines_read(text, (count - 1) as nat) {
            Err(e) => Err(e),
            Ok(st) => line_read(st, count, text[count - 1]),
        }
    }
}

// ------------------------------------------------------------------ resolving

/// The settings of a site: the server's, with the first `count` of its overrides
/// applied.
pub open spec fn overridden(
    base: Shared,
    overrides: Seq<(nat, Seq<char>, Seq<char>)>,
    count: nat,
) -> Result<Shared, Seq<char>>
    decreases count,
{
    if count == 0 {
        Ok(base)
    } else {
        match overridden(base, overrides, (count - 1) as nat) {
            Err(e) => Err(e),
            Ok(s) => {
                let o = overrides[count - 1];
                match shared_set(s, o.1, o.2) {
                    Err(e) => Err(at_line(o.0, e)),
                    Ok(Some(next)) => Ok(next),
                    Ok(None) => Ok(s),
                }
            },
        }
    }
}

/// Texts joined by commas.
pub open spec fn comma_joined(names: Seq<Seq<char>>) -> Seq<char>
    decreases names.len(),
{
    if names.len() == 0 {
        seq![]
    } else if names.len() == 1 {
        names[0]
    } else {
        comma_joined(names.drop_last()) + ","@ + names.last()
    }
}

/// A block as a site, resolved against the server's settings.
pub open spec fn site_resolved(base: Shared, p: PendingModel) -> Result<SiteModel, Seq<char>> {
    let label = comma_joined(p.hosts);
    match (p.cert, p.key) {
        (None, _) => Err(
            at_line(
                p.line,
                "site "@ + label
                    + ": missing 'cert' (TLS terminates here even for a redirect-only host)"@,
            ),
        ),
        (Some(_), None) => Err(at_line(p.line, "site "@ + label + ": missing 'key'"@)),
        (Some(cert), Some(key)) => if p.root is None && p.redirects == no_rules() {
            Err(
                at_line(
                    p.line,
                    "site "@ + label + ": needs a 'root' to serve, or at least one redirect rule"@,
                ),
            )
        } else {
            match overridden(base, p.overrides, p.overrides.len()) {
                Err(e) => Err(e),
                Ok(s) => Ok(
                    SiteModel {
                        hosts: p.hosts,
                        root: p.root,
                        cert,
                        key,
                        force_ssl: p.force_ssl,
                        canonical_urls: p.canonical_urls,
                        redirects: p.redirects,
                        tuning: s.tuning,
                        headers: s.headers,
                    },
                ),
            }
        },
    }
}

/// The first `count` blocks as sites.
pub open spec fn sites_resolved(base: Shared, pending: Seq<PendingModel>, count: nat) -> Result<
    Seq<SiteModel>,
    Seq<char>,
>
    decreases count,
{
    if count == 0 {
        Ok(seq![])
    } else {
        match sites_resolved(base, pending, (count - 1) as nat) {
            Err(e) => Err(e),
            Ok(sites) => match site_resolved(base, pending[count - 1]) {
                Err(e) => Err(e),
                Ok(site) => Ok(sites.push(site)),
            },
        }
    }
}

/// A file whose lines are all read.
pub open spec fn file_resolved(st: Reading) -> Result<ConfigModel, Seq<char>> {
    if st.cur is Some {
        Err(at_line(st.cur->0.line, "unclosed site block (missing '}')"@))
    } else if st.host.len() == 0 || st.port.len() == 0 {
        Err("missing 'listen'"@)
    } else if st.pending.len() == 0 {
        Err("at least one 'site <host> { ... }' block is required"@)
    } else if st.storage == Storage::Disk && (st.disk_cache is None || st.disk_cache->0.len() == 0) {
        Err(
            "storage = disk requires 'disk_cache = <path>' (a writable directory on real disk)"@,
        )
    } else {
        match sites_resolved(st.shared, st.pending, st.pending.len()) {
            Err(e) => Err(e),
            Ok(sites) => Ok(
                ConfigModel {
                    host: st.host,
                    port: st.port,
                    http_host: st.http_host,
                    http_port: st.http_port,
                    sites,
                    headers: st.shared.headers,
                    max_conns_per_ip: st.max_conns_per_ip,
                    max_response_secs: st.max_response_secs,
                    storage: st.storage,
                    disk_cache: st.disk_cache,
                },
            ),
        }
    }
}

/// What the lines of a configuration file mean.
pub open spec fn lines_mean(listed: Seq<Seq<char>>) -> Result<ConfigModel, Seq<char>> {
    match lines_read(listed, listed.len()) {
        Err(e) => Err(e),
        Ok(st) => file_resolved(st),
    }
}

/// What a configuration text means.
pub open spec fn config_of(text: Seq<char>) -> Result<ConfigModel, Seq<char>> {
    lines_mean(lines_of(text))
}

// ----------------------------------------------------------------- the reader

/// A site block while it is read.
struct PendingSite {
    line: usize,
    hosts: Vec<String>,
    root: Option<String>,
    cert: Option<String>,
    key: Option<String>,
    force_ssl: bool,
    canonical_urls: bool,
    redirects: Redirects,
    overrides: Vec<(usize, String, String)>,
}

spec fn override_texts(v: Seq<(usize, String, String)>) -> Seq<(nat, Seq<char>, Seq<char>)> {
    Seq::new(v.len(), |i: int| (v[i].0 as nat, v[i].1@, v[i].2@))
}

impl View for PendingSite {
    type V = PendingModel;

    closed spec fn view(&self) -> PendingModel {
        PendingModel {
            line: self.line as nat,
            hosts: strings(self.hosts@),
            root: opt_text(self.root),
            cert: opt_text(self.cert),
            key: opt_text(self.key),
            force_ssl: self.force_ssl,
            canonical_urls: self.canonical_urls,
            redirects: self.redirects@,
            overrides: override_texts(self.overrides@),
        }
    }
}

/// What is known of a file after some of its lines.
struct Reader {
    host: String,
    port: String,
    http_host: String,
    http_port: String,
    pending: Vec<PendingSite>,
    tuning: Tuning,
    headers: HeaderConfig,
    max_conns_per_ip: usize,
    max_response_secs: u64,
    storage: Storage,
    disk_cache: Option<String>,
    cur: Option<PendingSite>,
}

spec fn pending_models(v: Seq<PendingSite>) -> Seq<PendingModel> {
    Seq::new(v.len(), |i: int| v[i]@)
}

impl View for Reader {
    type V = Reading;

    closed spec fn view(&self) -> Reading {
        Reading {
            host: self.host@,
            port: self.port@,
            http_host: self.http_host@,
            http_port: self.http_port@,
            pending: pending_models(self.pending@),
            shared: Shared { tuning: self.tuning, headers: self.headers@ },
            max_conns_per_ip: self.max_conns_per_ip,
            max_response_secs: self.max_response_secs,
            storage: self.storage,
            disk_cache: opt_text(self.disk_cache),
            cur: match self.cur {
                Some(site) => Some(site@),
                None => None,
            },
        }
    }
}

/// The part of a line before its comment.
fn uncommented(raw: &[char]) -> (r: &[char])
    ensures
        r@ == raw@.take(comment_start(raw@, 0)),
{
    let mut i: usize = 0;
    while i < raw.len()
        invariant
            0 <= i <= raw.len(),
            comment_start(raw@, i as int) == comment_start(raw@, 0),
        decreases raw.len() - i,
    {
        if raw[i] == '#' {
            if i == 0 {
                return slice_subrange(raw, 0, 0);
            }
            let c = raw[i - 1];
            if c == ' ' || c == '\t' || c == '\n' || c == '\x0C' || c == '\r' {
                return slice_subrange(raw, 0, i);
            }
        }
        i = i + 1;
    }
    slice_subrange(raw, 0, raw.len())
}

/// Reads the host names of a `site` line.
fn read_hosts(listed: &[char]) -> (r: Vec<String>)
    ensures
        strings(r@) == host_names(parts(listed@, ',')),
{
    let names = split(listed, ',');
    let ghost all = parts(listed@, ',');
    let mut out: Vec<String> = Vec::new();
    let mut i: usize = 0;
    while i < names.len()
        invariant
            0 <= i <= names.len(),
            texts(names@) == all,
            strings(out@) == host_names(all.take(i as int)),
        decreases names.len() - i,
    {
        let ghost before = out@;
        let name = to_lower(trim(names[i]));
        proof {
            assert(all[i as int] == names@[i as int]@);
            assert(all.take(i + 1).drop_last() == all.take(i as int));
            assert(all.take(i + 1).last() == all[i as int]);
        }
        if name.len() > 0 {
            out.push(string_of(name.as_slice()));
            assert(strings(out@) =~= strings(before).push(name@));
        }
        i = i + 1;
    }
    assert(all.take(names.len() as int) == all);
    out
}

/// Reads the value of a listener.
fn read_listener(key: &str, example: &str, n: usize, v: &[char]) -> (r: Result<
    (String, String),
    String,
>)
    ensures
        match r {
            Ok(a) => listener(key@, example@, n as nat, v@) == Ok::<
                (Seq<char>, Seq<char>),
                Seq<char>,
            >((a.0@, a.1@)),
            Err(e) => listener(key@, example@, n as nat, v@) == Err::<
                (Seq<char>, Seq<char>),
                Seq<char>,
            >(e@),
        },
{
    match rsplit_once(v, ':') {
        None => {
            let mut s = key.to_string();
            s.append(" must be host:port");
            Err(at(n, s.as_str()))
        },
        Some((h, p)) => {
            if trim(h).len() == 0 || trim(p).len() == 0 {
                let mut s = key.to_string();
                s.append(" must be host:port, e.g. ");
                s.append(example);
                Err(at(n, s.as_str()))
            } else {
                Ok((string_of(h), string_of(p)))
            }
        },
    }
}

/// What follows a keyword and one blank.
fn strip_keyword<'a>(line: &'a [char], spaced: &str, tabbed: &str) -> (r: Option<&'a [char]>)
    ensures
        match r {
            Some(t) => after_word(line@, spaced@, tabbed@) == Some(t@),
            None => after_word(line@, spaced@, tabbed@) is None,
        },
{
    match strip_word(line, spaced) {
        Some(rest) => Some(rest),
        None => strip_word(line, tabbed),
    }
}

impl Reader {
    fn new() -> (r: Self)
        ensures
            r@ == nothing_read(),
    {
        let r = Reader {
            host: String::new(),
            port: String::new(),
            http_host: String::new(),
            http_port: String::new(),
            pending: Vec::new(),
            tuning: Tuning::default(),
            headers: HeaderConfig::default(),
            max_conns_per_ip: DEF_MAX_CONNS_PER_IP,
            max_response_secs: 0,
            storage: Storage::Memory,
            disk_cache: None,
            cur: None,
        };
        assert(r@ =~= nothing_read());
        r
    }

    /// Reads a closing brace.
    fn close_block(&mut self, n: usize) -> (r: Result<(), String>)
        ensures
            match r {
                Ok(()) => block_closed(old(self)@, n as nat) == Ok::<Reading, Seq<char>>(
                    final(self)@,
                ),
                Err(e) => block_closed(old(self)@, n as nat) == Err::<Reading, Seq<char>>(e@),
            },
    {
        match self.cur.take() {
            None => Err(at(n, "stray '}' outside a site block")),
            Some(mut site) => {
                site.redirects.finish();
                let ghost before = self.pending@;
                self.pending.push(site);
                assert(pending_models(self.pending@) =~= pending_models(before).push(site@));
                Ok(())
            },
        }
    }

    /// Reads a `site` line.
    fn open_block(&mut self, n: usize, rest: &[char]) -> (r: Result<(), String>)
        ensures
            match r {
                Ok(()) => block_opened(old(self)@, n as nat, rest@) == Ok::<Reading, Seq<char>>(
                    final(self)@,
                ),
                Err(e) => block_opened(old(self)@, n as nat, rest@) == Err::<Reading, Seq<char>>(
                    e@,
                ),
            },
    {
        if rest.len() > 0 && rest[0] == '=' {
            let v = trim(slice_subrange(rest, 1, rest.len()));
            return Err(at(n, explain_site_line(string_of(v).as_str()).as_str()));
        }
        if self.cur.is_some() {
            return Err(at(n, "site blocks cannot nest"));
        }
        match strip_last(rest, '{') {
            None => Err(at(n, "a site must open a block: site <host[, host2]> {")),
            Some(listed) => {
                let hosts = read_hosts(listed);
                if hosts.len() == 0 {
                    assert(strings(hosts@).len() == 0);
                    return Err(at(n, "site has no host names"));
                }
                assert(strings(hosts@).len() > 0);
                let site = PendingSite {
                    line: n,
                    hosts,
                    root: None,
                    cert: None,
                    key: None,
                    force_ssl: true,
                    canonical_urls: false,
                    redirects: Redirects::default(),
                    overrides: Vec::new(),
                };
                assert(override_texts(site.overrides@) =~= seq![]);
                self.cur = Some(site);
                Ok(())
            },
        }
    }

    /// Reads a `redirect` line.
    fn list_rule(&mut self, n: usize, rest: &[char]) -> (r: Result<(), String>)
        ensures
            match r {
                Ok(()) => rule_listed(old(self)@, n as nat, rest@) == Ok::<Reading, Seq<char>>(
                    final(self)@,
                ),
                Err(e) => rule_listed(old(self)@, n as nat, rest@) == Err::<Reading, Seq<char>>(
                    e@,
                ),
            },
    {
        if rest.len() > 0 && rest[0] == '=' {
            let v = trim(slice_subrange(rest, 1, rest.len()));
            return Err(at(n, explain_redirect_line(string_of(v).as_str()).as_str()));
        }
        match self.cur.take() {
            None => Err(at(n, "redirect rules belong inside a site block")),
            Some(mut site) => {
                let arrow = chars_of("->");
                proof {
                    reveal_strlit("->");
                }
                match find_text(rest, arrow.as_slice()) {
                    None => Err(at(n, "redirect must be: redirect <pattern> -> <target>")),
                    Some(i) => {
                        let pattern = trim(slice_subrange(rest, 0, i));
                        let target = trim(slice_subrange(rest, i + 2, rest.len()));
                        if pattern.len() == 0 {
                            return Err(at(n, "redirect: empty pattern"));
                        }
                        match site.redirects.push(
                            string_of(pattern).as_str(),
                            string_of(target).as_str(),
                        ) {
                            Err(e) => Err(at(n, e.as_str())),
                            Ok(()) => {
                                self.cur = Some(site);
                                Ok(())
                            },
                        }
                    },
                }
            },
        }
    }

    /// Reads a `key = value` line inside a block.
    fn set_for_site(&mut self, mut site: PendingSite, n: usize, k: &str, v: &str) -> (r: Result<
        (),
        String,
    >)
        ensures
            match r {
                Ok(()) => site_setting(old(self)@, site@, n as nat, k@, v@) == Ok::<
                    Reading,
                    Seq<char>,
                >(final(self)@),
                Err(e) => site_setting(old(self)@, site@, n as nat, k@, v@) == Err::<
                    Reading,
                    Seq<char>,
                >(e@),
            },
    {
        if same_str(k, "root") {
            site.root = Some(v.to_string());
        } else if same_str(k, "cert") {
            site.cert = Some(v.to_string());
        } else if same_str(k, "key") {
            site.key = Some(v.to_string());
        } else if same_str(k, "force_ssl") {
            match parse_bool(k, v) {
                Ok(x) => site.force_ssl = x,
                Err(e) => return Err(at(n, e.as_str())),
            }
        } else if same_str(k, "canonical_urls") {
            match parse_bool(k, v) {
                Ok(x) => site.canonical_urls = x,
                Err(e) => return Err(at(n, e.as_str())),
            }
        } else {
            if let Some(why) = server_only_reason(k) {
                let mut s = k.to_string();
                s.append(" is a server-level setting (");
                s.append(why);
                s.append(")");
                return Err(at(n, s.as_str()));
            }
            // A wrong value fails at the line that holds it; the effect comes
            // once the file's top-level defaults are known.
            let mut t = self.tuning;
            let mut h = self.headers.clone();
            match apply_shared(&mut t, &mut h, k, v) {
                Err(e) => return Err(at(n, e.as_str())),
                Ok(owned) => {
                    if !owned {
                        let mut s = "unknown site setting: ".to_string();
                        s.append(k);
                        return Err(at(n, s.as_str()));
                    }
                },
            }
            let ghost before = site.overrides@;
            site.overrides.push((n, k.to_string(), v.to_string()));
            assert(override_texts(site.overrides@) =~= override_texts(before).push(
                (n as nat, k@, v@),
            ));
        }
        self.cur = Some(site);
        Ok(())
    }

    /// Reads a `key = value` line outside every block.
    fn set_for_server(&mut self, n: usize, k: &str, v: &str) -> (r: Result<(), String>)
        ensures
            match r {
                Ok(()) => server_setting(old(self)@, n as nat, k@, v@) == Ok::<
                    Reading,
                    Seq<char>,
                >(final(self)@),
                Err(e) => server_setting(old(self)@, n as nat, k@, v@) == Err::<
                    Reading,
                    Seq<char>,
                >(e@),
            },
    {
        let value = chars_of(v);
        if same_str(k, "listen") {
            match read_listener("listen", "[::]:443", n, value.as_slice()) {
                Err(e) => return Err(e),
                Ok((h, p)) => {
                    self.host = h;
                    self.port = p;
                },
            }
        } else if same_str(k, "listen_http") {
            match read_listener("listen_http", "[::]:80", n, value.as_slice()) {
                Err(e) => return Err(e),
                Ok((h, p)) => {
                    self.http_host = h;
                    self.http_port = p;
                },
            }
        } else if same_str(k, "max_total_bytes") {
            match parse_size(k, v) {
                Ok(x) => self.tuning.max_total_bytes = x,
                Err(e) => return Err(at(n, e.as_str())),
            }
        } else if same_str(k, "max_conns_per_ip") {
            match parse_count(k, v) {
                Ok(x) => self.max_conns_per_ip = x,
                Err(e) => return Err(at(n, e.as_str())),
            }
        } else if same_str(k, "max_response_secs") {
            match parse_deadline_secs(k, v) {
                Ok(x) => self.max_response_secs = x,
                Err(e) => return Err(at(n, e.as_str())),
            }
        } else if same_str(k, "storage") {
            let word = trim(value.as_slice());
            if is_word_ci(word, "memory") || is_word_ci(word, "mem") || is_word_ci(word, "ram") {
                self.storage = Storage::Memory;
            } else if is_word_ci(word, "disk") {
                self.storage = Storage::Disk;
            } else {
                let s = between(
                    "storage: expected memory or disk (got: ",
                    value.as_slice(),
                    ")",
                );
                return Err(at(n, s.as_str()));
            }
        } else if same_str(k, "disk_cache") {
            self.disk_cache = Some(string_of(trim(value.as_slice())));
        } else {
            match apply_shared(&mut self.tuning, &mut self.headers, k, v) {
                Err(e) => return Err(at(n, e.as_str())),
                Ok(owned) => {
                    if !owned {
                        if is_site_only(k) {
                            let mut s = k.to_string();
                            s.append(" belongs inside a site block");
                            return Err(at(n, s.as_str()));
                        }
                        let mut s = "unknown config key: ".to_string();
                        s.append(k);
                        return Err(at(n, s.as_str()));
                    }
                },
            }
        }
        Ok(())
    }

    /// Reads one line.
    fn read_line(&mut self, n: usize, raw: &[char]) -> (r: Result<(), String>)
        ensures
            match r {
                Ok(()) => line_read(old(self)@, n as nat, raw@) == Ok::<Reading, Seq<char>>(
                    final(self)@,
                ),
                Err(e) => line_read(old(self)@, n as nat, raw@) == Err::<Reading, Seq<char>>(e@),
            },
    {
        let line = trim(uncommented(raw));
        if line.len() == 0 {
            return Ok(());
        }
        if is_word(line, "}") {
            return self.close_block(n);
        }
        if let Some(rest) = strip_keyword(line, "site ", "site\t") {
            return self.open_block(n, trim(rest));
        }
        if let Some(rest) = strip_keyword(line, "redirect ", "redirect\t") {
            return self.list_rule(n, trim(rest));
        }
        match split_once(line, '=') {
            None => {
                let mut s = "malformed config line: ".to_string();
                push_chars(&mut s, line);
                Err(at(n, s.as_str()))
            },
            Some((k, v)) => {
                let k = string_of(trim(k));
                let v = string_of(trim(v));
                match self.cur.take() {
                    Some(site) => self.set_for_site(site, n, k.as_str(), v.as_str()),
                    None => self.set_for_server(n, k.as_str(), v.as_str()),
                }
            },
        }
    }
}

/// A line that fails fails the file.
proof fn lemma_lines_fail(text: Seq<Seq<char>>, count: nat, total: nat)
    requires
        count <= total,
        lines_read(text, count) is Err,
    ensures
        lines_read(text, total) == lines_read(text, count),
    decreases total - count,
{
    if count < total {
        lemma_lines_fail(text, count, (total - 1) as nat);
    }
}

/// An override that fails fails its site.
proof fn lemma_overrides_fail(
    base: Shared,
    overrides: Seq<(nat, Seq<char>, Seq<char>)>,
    count: nat,
    total: nat,
)
    requires
        count <= total,
        overridden(base, overrides, count) is Err,
    ensures
        overridden(base, overrides, total) == overridden(base, overrides, count),
    decreases total - count,
{
    if count < total {
        lemma_overrides_fail(base, overrides, count, (total - 1) as nat);
    }
}

/// A block that fails fails the file.
proof fn lemma_sites_fail(base: Shared, pending: Seq<PendingModel>, count: nat, total: nat)
    requires
        count <= total,
        sites_resolved(base, pending, count) is Err,
    ensures
        sites_resolved(base, pending, total) == sites_resolved(base, pending, count),
    decreases total - count,
{
    if count < total {
        lemma_sites_fail(base, pending, count, (total - 1) as nat);
    }
}

/// Joins host names by commas.
pub fn join_hosts(hosts: &Vec<String>) -> (r: String)
    ensures
        r@ == comma_joined(strings(hosts@)),
{
    let mut out = String::new();
    let mut i: usize = 0;
    let ghost names = strings(hosts@);
    while i < hosts.len()
        invariant
            0 <= i <= hosts.len(),
            names == strings(hosts@),
            out@ == comma_joined(names.take(i as int)),
        decreases hosts.len() - i,
    {
        proof {
            assert(names.take(i + 1).drop_last() == names.take(i as int));
            assert(names.take(i + 1).last() == hosts@[i as int]@);
        }
        if i > 0 {
            out.append(",");
        }
        out.append(hosts[i].as_str());
        i = i + 1;
    }
    assert(names.take(hosts.len() as int) == names);
    out
}

/// Says what a site lacks.
fn lacking(p: &PendingSite, what: &str) -> (r: String)
    ensures
        r@ == at_line(p@.line, "site "@ + comma_joined(p@.hosts) + what@),
{
    let mut s = "site ".to_string();
    s.append(join_hosts(&p.hosts).as_str());
    s.append(what);
    at(p.line, s.as_str())
}

/// Resolves a block against the server's settings.
fn resolve_site(tuning: Tuning, headers: &HeaderConfig, p: PendingSite) -> (r: Result<
    SiteConfig,
    String,
>)
    ensures
        ({
            let base = Shared { tuning, headers: headers@ };
            match r {
                Ok(site) => site_resolved(base, p@) == Ok::<SiteModel, Seq<char>>(site@),
                Err(e) => site_resolved(base, p@) == Err::<SiteModel, Seq<char>>(e@),
            }
        }),
{
    if p.cert.is_none() {
        return Err(
            lacking(
                &p,
                ": missing 'cert' (TLS terminates here even for a redirect-only host)",
            ),
        );
    }
    if p.key.is_none() {
        return Err(lacking(&p, ": missing 'key'"));
    }
    if p.root.is_none() && p.redirects.is_empty() {
        return Err(lacking(&p, ": needs a 'root' to serve, or at least one redirect rule"));
    }
    let mut t = tuning;
    let mut h = headers.clone();
    let ghost base = Shared { tuning, headers: headers@ };
    let mut i: usize = 0;
    while i < p.overrides.len()
        invariant
            0 <= i <= p.overrides.len(),
            base == (Shared { tuning, headers: headers@ }),
            p@.cert is Some,
            p@.key is Some,
            !(p@.root is None && p@.redirects == no_rules()),
            overridden(base, p@.overrides, i as nat) == Ok::<Shared, Seq<char>>(
                Shared { tuning: t, headers: h@ },
            ),
        decreases p.overrides.len() - i,
    {
        assert(p@.overrides[i as int] == (
            p.overrides@[i as int].0 as nat,
            p.overrides@[i as int].1@,
            p.overrides@[i as int].2@,
        ));
        match apply_shared(&mut t, &mut h, p.overrides[i].1.as_str(), p.overrides[i].2.as_str()) {
            Err(e) => {
                let message = at(p.overrides[i].0, e.as_str());
                proof {
                    lemma_overrides_fail(base, p@.overrides, (i + 1) as nat, p@.overrides.len());
                }
                return Err(message);
            },
            Ok(_) => {},
        }
        i = i + 1;
    }
    match (p.cert, p.key) {
        (Some(cert), Some(key)) => Ok(
            SiteConfig {
                hosts: p.hosts,
                root: p.root,
                cert,
                key,
                force_ssl: p.force_ssl,
                canonical_urls: p.canonical_urls,
                redirects: Arc::new(p.redirects),
                tuning: t,
                headers: h,
            },
        ),
        _ => unreached(),
    }
}

/// Resolves a file whose lines are all read.
fn resolve_file(st: Reader) -> (r: Result<Config, String>)
    ensures
        match r {
            Ok(c) => file_resolved(st@) == Ok::<ConfigModel, Seq<char>>(c@),
            Err(e) => file_resolved(st@) == Err::<ConfigModel, Seq<char>>(e@),
        },
{
    if let Some(site) = &st.cur {
        return Err(at(site.line, "unclosed site block (missing '}')"));
    }
    if chars_of(st.host.as_str()).len() == 0 || chars_of(st.port.as_str()).len() == 0 {
        return Err("missing 'listen'".to_string());
    }
    if st.pending.len() == 0 {
        return Err("at least one 'site <host> { ... }' block is required".to_string());
    }
    if st.storage == Storage::Disk {
        let placed = match &st.disk_cache {
            Some(dir) => chars_of(dir.as_str()).len() > 0,
            None => false,
        };
        if !placed {
            return Err(
                "storage = disk requires 'disk_cache = <path>' (a writable directory on real disk)".to_string(),
            );
        }
    }
    let ghost whole = st@;
    let tuning = st.tuning;
    let headers = st.headers;
    let ghost base = Shared { tuning, headers: headers@ };
    let ghost total = whole.pending.len();
    let mut sites: Vec<SiteConfig> = Vec::new();
    let pending = st.pending;
    assert(site_models(sites@) =~= seq![]);
    for p in it: pending
        invariant
            it.seq() == pending@,
            whole.pending == pending_models(pending@),
            total == whole.pending.len(),
            base == whole.shared,
            base == (Shared { tuning, headers: headers@ }),
            whole.cur is None,
            whole.host.len() > 0,
            whole.port.len() > 0,
            whole.pending.len() > 0,
            !(whole.storage == Storage::Disk && (whole.disk_cache is None
                || whole.disk_cache->0.len() == 0)),
            file_resolved(whole) == file_resolved(st@),
            sites_resolved(base, whole.pending, it.index() as nat) == Ok::<
                Seq<SiteModel>,
                Seq<char>,
            >(site_models(sites@)),
    {
        let ghost k = it.index();
        let ghost before = sites@;
        assert(whole.pending[k] == p@);
        match resolve_site(tuning, &headers, p) {
            Err(e) => {
                proof {
                    lemma_sites_fail(base, whole.pending, (k + 1) as nat, total);
                }
                return Err(e);
            },
            Ok(site) => {
                sites.push(site);
                assert(site_models(sites@) =~= site_models(before).push(site@));
            },
        }
    }
    Ok(
        Config {
            host: st.host,
            port: st.port,
            http_host: st.http_host,
            http_port: st.http_port,
            sites,
            headers,
            max_conns_per_ip: st.max_conns_per_ip,
            max_response_secs: st.max_response_secs,
            storage: st.storage,
            disk_cache: st.disk_cache,
        },
    )
}

/// Parses the configuration text. A file that does not parse is an error, never
/// an exit, so that a bad reload leaves the running server untouched.
pub fn parse_config(text: &str) -> (r: Result<Config, String>)
    ensures
        match r {
            Ok(c) => config_of(text@) == Ok::<ConfigModel, Seq<char>>(c@),
            Err(e) => config_of(text@) == Err::<ConfigModel, Seq<char>>(e@),
        },
{
    let chars = chars_of(text);
    let listed = lines(chars.as_slice());
    let ghost all = lines_of(text@);
    let mut st = Reader::new();
    let mut i: usize = 0;
    while i < listed.len()
        invariant
            0 <= i <= listed.len(),
            all == lines_of(text@),
            texts(listed@) == all,
            lines_read(all, i as nat) == Ok::<Reading, Seq<char>>(st@),
        decreases listed.len() - i,
    {
        assert(all[i as int] == listed@[i as int]@);
        match st.read_line(i + 1, listed[i]) {
            Err(e) => {
                proof {
                    lemma_lines_fail(all, (i + 1) as nat, all.len());
                }
                return Err(e);
            },
            Ok(()) => {},
        }
        i = i + 1;
    }
    resolve_file(st)
}

/// Takes a configuration file as it was read, or what kept it from being.
pub fn load_config(path: &str, read: Result<String, String>) -> (r: Result<Config, String>)
    ensures
        match (read, r) {
            (Ok(text), Ok(c)) => config_of(text@) == Ok::<ConfigModel, Seq<char>>(c@),
            (Ok(text), Err(e)) => config_of(text@) == Err::<ConfigModel, Seq<char>>(e@),
            (Err(why), Err(e)) => e@ == "cannot read "@ + path@ + ": "@ + why@,
            (Err(_), Ok(_)) => false,
        },
{
    match read {
        Ok(text) => parse_config(text.as_str()),
        Err(why) => {
            let mut m = "cannot read ".to_string();
            m.append(path);
            m.append(": ");
            m.append(why.as_str());
            Err(m)
        },
    }
}

} // verus!
