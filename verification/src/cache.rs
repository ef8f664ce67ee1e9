//! The content cache: what each file becomes when it is loaded, what it costs,
//! and which files are loaded at all.
//!
//! A document root is walked once. Each file becomes a set of ready responses:
//! identity always, gzip and brotli for compressible types. In memory mode they
//! hold their bodies; in disk mode only their headers, with the bodies in a
//! snapshot directory.
use vstd::hash_map::StringHashMap;
use vstd::prelude::*;
use vstd::slice::slice_subrange;
use vstd::string::StringExecFns;
use vstd::utf8::{encode_utf8, encode_utf8_valid_utf8, valid_utf8};

use crate::compress::{
    brotli_compress, brotli_may_give, gunzipped, gzip_bytes, gzip_compress, unbrotlied,
};
use crate::config::{default_headers, security_block, HeaderConfig, Storage, Tuning};
use crate::mime::{mime_for, mime_of};
use crate::response::{
    build_header, build_variant, encoding_text, etag_for, etag_text, is_variant_of,
    law_a_variant_is_its_header_and_its_body, ok_head, pages_for, variant_head, ErrorPages, Variant,
};
use crate::text::{
    chars_of, dec_text, first_run, has_text, is_digit, is_word, law_a_back_cut_is_at_the_last,
    lemma_first_run_from, push_dec, rcut, rsplit_once, starts_with, string_of, strings,
};

verus! {

// --------------------------------------------------------------------- policy

/// The name of a file within its URL.
pub open spec fn file_name(url: Seq<char>) -> Seq<char> {
    match rcut(url, '/') {
        Some((_, f)) => f,
        None => url,
    }
}

/// A hexadecimal digit, of either case.
pub open spec fn is_hex(c: char) -> bool {
    is_digit(c) || 0x61 <= c as u32 <= 0x66 || 0x41 <= c as u32 <= 0x46
}

/// What stands between the last dash of a file's stem and its extension.
pub open spec fn name_suffix(url: Seq<char>) -> Option<Seq<char>> {
    match rcut(file_name(url), '.') {
        None => None,
        Some((stem, _)) => match rcut(stem, '-') {
            None => None,
            Some((_, suffix)) => Some(suffix),
        },
    }
}

/// A URL whose file name carries a content hash, by convention: its suffix is
/// eight or more hexadecimal digits, and not decimal ones only, which dates and
/// version numbers are.
pub open spec fn fingerprinted(url: Seq<char>) -> bool {
    match name_suffix(url) {
        None => false,
        Some(hash) => {
            &&& hash.len() >= 8
            &&& forall|i: int| 0 <= i < hash.len() ==> is_hex(#[trigger] hash[i])
            &&& exists|i: int| 0 <= i < hash.len() && !is_digit(#[trigger] hash[i])
        },
    }
}

/// Decides [`fingerprinted`].
pub fn is_fingerprinted(url: &str) -> (r: bool)
    ensures
        r == fingerprinted(url@),
{
    let chars = chars_of(url);
    let file = match rsplit_once(chars.as_slice(), '/') {
        Some((_, f)) => f,
        None => chars.as_slice(),
    };
    let stem = match rsplit_once(file, '.') {
        Some((s, _)) => s,
        None => return false,
    };
    match rsplit_once(stem, '-') {
        None => false,
        Some((_, hash)) => {
            if hash.len() < 8 {
                return false;
            }
            let mut letters: bool = false;
            let mut i: usize = 0;
            while i < hash.len()
                invariant
                    0 <= i <= hash.len(),
                    name_suffix(url@) == Some(hash@),
                    hash.len() >= 8,
                    forall|j: int| 0 <= j < i ==> is_hex(#[trigger] hash@[j]),
                    letters == exists|j: int| 0 <= j < i && !is_digit(#[trigger] hash@[j]),
                decreases hash.len() - i,
            {
                let u: u32 = hash[i] as u32;
                let digit = 0x30 <= u && u <= 0x39;
                if !digit && !(0x61 <= u && u <= 0x66) && !(0x41 <= u && u <= 0x46) {
                    assert(!is_hex(hash@[i as int]));
                    return false;
                }
                if !digit {
                    assert(!is_digit(hash@[i as int]));
                    letters = true;
                }
                i = i + 1;
            }
            letters
        },
    }
}

/// What a `Cache-Control` header says of a URL. A fingerprinted URL names one
/// exact set of bytes, so it is pinned; everything else is revalidated.
pub open spec fn cache_control_of(t: Tuning, url: Seq<char>) -> Seq<char> {
    if fingerprinted(url) {
        immutable_text(t)
    } else {
        revalidate_text(t)
    }
}

/// The `Cache-Control` value of pinned content.
pub open spec fn immutable_text(t: Tuning) -> Seq<char> {
    "public, max-age="@ + dec_text(t.immutable_max_age as nat) + ", immutable"@
}

/// The `Cache-Control` value of content that is revalidated.
pub open spec fn revalidate_text(t: Tuning) -> Seq<char> {
    "public, max-age="@ + dec_text(t.cache_max_age as nat) + ", must-revalidate"@
}

/// One site's settings with everything that is derived from them, rendered once.
pub struct Policy {
    pub t: Tuning,
    pub cc_immutable: String,
    pub cc_revalidate: String,
    /// The security-header block of every response.
    pub security_headers: String,
    /// The site's status pages, with the same block.
    pub errors: ErrorPages,
    pub storage: Storage,
    /// The root directory of the snapshots in disk mode.
    pub disk_cache: String,
}

impl Policy {
    /// What is derived agrees with what it is derived from.
    pub open spec fn wf(&self) -> bool {
        &&& self.cc_immutable@ == immutable_text(self.t)
        &&& self.cc_revalidate@ == revalidate_text(self.t)
        &&& pages_for(self.errors, self.security_headers@)
    }

    /// Builds a policy with the default headers and in-memory storage.
    pub fn new(t: Tuning) -> (r: Policy)
        ensures
            r.wf(),
            r.t == t,
            r.security_headers@ == security_block(default_headers()),
            r.storage == Storage::Memory,
            r.disk_cache@ == Seq::<char>::empty(),
    {
        Policy::with_headers(t, &HeaderConfig::default(), Storage::Memory, String::new())
    }

    /// Builds a policy.
    pub fn with_headers(t: Tuning, h: &HeaderConfig, storage: Storage, disk_cache: String) -> (r:
        Policy)
        ensures
            r.wf(),
            r.t == t,
            r.security_headers@ == security_block(h@),
            r.storage == storage,
            r.disk_cache == disk_cache,
    {
        let security_headers = h.render();
        let mut cc_immutable = "public, max-age=".to_string();
        push_dec(&mut cc_immutable, t.immutable_max_age);
        cc_immutable.append(", immutable");
        let mut cc_revalidate = "public, max-age=".to_string();
        push_dec(&mut cc_revalidate, t.cache_max_age);
        cc_revalidate.append(", must-revalidate");
        let errors = ErrorPages::new(security_headers.as_str());
        Policy { t, cc_immutable, cc_revalidate, security_headers, errors, storage, disk_cache }
    }

    /// The caching policy for a URL, from the URL alone.
    pub fn cache_control_for(&self, url: &str) -> (r: &str)
        requires
            self.wf(),
        ensures
            r@ == cache_control_of(self.t, url@),
    {
        if is_fingerprinted(url) {
            self.cc_immutable.as_str()
        } else {
            self.cc_revalidate.as_str()
        }
    }
}

// ---------------------------------------------------------------- compression

/// The types that compression makes smaller.
pub open spec fn compressible(mime: Seq<char>) -> bool {
    ||| "text/"@.is_prefix_of(mime)
    ||| first_run(mime, "javascript"@) is Some
    ||| first_run(mime, "json"@) is Some
    ||| first_run(mime, "xml"@) is Some
    ||| first_run(mime, "svg"@) is Some
    ||| first_run(mime, "wasm"@) is Some
}

/// Decides [`compressible`].
pub fn is_compressible(mime: &str) -> (r: bool)
    ensures
        r == compressible(mime@),
{
    let chars = chars_of(mime);
    let m = chars.as_slice();
    starts_with(m, "text/") || has_text(m, "javascript") || has_text(m, "json") || has_text(
        m,
        "xml",
    ) || has_text(m, "svg") || has_text(m, "wasm")
}

/// A file that compression is tried on.
pub open spec fn worth_compressing(mime: Seq<char>, data: Seq<u8>, t: Tuning) -> bool {
    t.compression && compressible(mime) && data.len() >= t.min_compress_bytes
}

/// A compressed form of a file, where it is smaller than the file.
pub open spec fn if_smaller(data: Seq<u8>, form: Seq<u8>) -> Option<Seq<u8>> {
    if form.len() < data.len() {
        Some(form)
    } else {
        None
    }
}

/// The gzip form of a file: only where the file is under gzip's ceiling and the
/// form is smaller.
pub open spec fn gzip_form(mime: Seq<char>, data: Seq<u8>, t: Tuning) -> Option<Seq<u8>> {
    if worth_compressing(mime, data, t) && data.len() <= t.max_gzip_bytes {
        if_smaller(data, gzip_bytes(data, t.gzip_level))
    } else {
        None
    }
}

/// What holds of the brotli form of a file, whichever stream the encoder chose:
/// where the file is under brotli's ceiling, it is some stream that the encoder
/// may make of the file at the quality that is set, and that decodes to the file,
/// kept if it is smaller; elsewhere there is none.
pub open spec fn brotli_form_allowed(
    mime: Seq<char>,
    data: Seq<u8>,
    t: Tuning,
    form: Option<Seq<u8>>,
) -> bool {
    if worth_compressing(mime, data, t) && data.len() <= t.max_brotli_bytes {
        exists|stream: Seq<u8>| #[trigger]
            brotli_may_give(data, t.brotli_quality, stream) && unbrotlied(stream) == Some(data)
                && form == if_smaller(data, stream)
    } else {
        form is None
    }
}

/// The bytes of a body that may be absent.
pub open spec fn opt_bytes(o: Option<Vec<u8>>) -> Option<Seq<u8>> {
    match o {
        Some(v) => Some(v@),
        None => None,
    }
}

/// Keeps a compressed form only if it is smaller than what it stands for.
pub fn keep_if_smaller(data: &[u8], form: Vec<u8>) -> (r: Option<Vec<u8>>)
    ensures
        opt_bytes(r) == if_smaller(data@, form@),
{
    if form.len() < data.len() {
        Some(form)
    } else {
        None
    }
}

/// Makes the gzip and brotli forms that a file should have. Gzip, which is
/// cheap, has the high ceiling; brotli, which is not, the low one.
pub fn compress_variants(mime: &str, data: &[u8], p: &Policy) -> (r: (
    Option<Vec<u8>>,
    Option<Vec<u8>>,
))
    requires
        p.t.gzip_level <= 10,
    ensures
        opt_bytes(r.0) == gzip_form(mime@, data@, p.t),
        r.0 matches Some(g) ==> gunzipped(g@) == Some(data@),
        brotli_form_allowed(mime@, data@, p.t, opt_bytes(r.1)),
{
    if !p.t.compression || !is_compressible(mime) || data.len() < p.t.min_compress_bytes {
        return (None, None);
    }
    let gz = if data.len() <= p.t.max_gzip_bytes {
        keep_if_smaller(data, gzip_compress(data, p.t.gzip_level))
    } else {
        None
    };
    let br = if data.len() <= p.t.max_brotli_bytes {
        keep_if_smaller(data, brotli_compress(data, p.t.brotli_quality))
    } else {
        None
    };
    (gz, br)
}

// -------------------------------------------------------------------- entries

/// A cached file in memory.
pub struct MemEntry {
    pub identity: Variant,
    pub gzip: Option<Variant>,
    pub br: Option<Variant>,
    /// Echoed on a 304.
    pub cache_control: String,
    /// Ditto: a 304 carries the same `Vary` as the 200.
    pub vary: bool,
}

/// One encoding whose body lies on disk. `path` is relative to the snapshot.
pub struct DiskVariant {
    /// Status line and headers, `Connection: keep-alive`, blank line at the end.
    pub header_ka: Vec<u8>,
    pub path: String,
    pub len: u64,
    pub etag: String,
    pub encoding: Option<&'static str>,
}

/// A cached file on disk: only headers and validators are in RAM.
pub struct DiskEntry {
    pub identity: DiskVariant,
    pub gzip: Option<DiskVariant>,
    pub br: Option<DiskVariant>,
    pub cache_control: String,
    pub vary: bool,
}

/// One cached URL.
pub enum Cached {
    Mem(MemEntry),
    Disk(DiskEntry),
}

/// A variant that may be absent is the one for a body that may be absent.
pub open spec fn is_opt_variant_of(
    v: Option<Variant>,
    mime: Seq<char>,
    body: Option<Seq<u8>>,
    encoding: Seq<char>,
    cache_control: Seq<char>,
    security: Seq<char>,
) -> bool {
    match (v, body) {
        (Some(v), Some(b)) => v.wf() && v.body() == b && is_variant_of(
            v,
            mime,
            b,
            Some(encoding),
            true,
            cache_control,
            security,
        ),
        (None, None) => true,
        _ => false,
    }
}

/// An entry is the one for a file with given compressed forms.
pub open spec fn is_mem_entry(
    e: MemEntry,
    url: Seq<char>,
    mime: Seq<char>,
    data: Seq<u8>,
    gz: Option<Seq<u8>>,
    br: Option<Seq<u8>>,
    p: Policy,
) -> bool {
    let vary = gz is Some || br is Some;
    let cc = cache_control_of(p.t, url);
    let sec = p.security_headers@;
    &&& e.identity.wf()
    &&& e.identity.body() == data
    &&& is_variant_of(e.identity, mime, data, None, vary, cc, sec)
    &&& is_opt_variant_of(e.gzip, mime, gz, "gzip"@, cc, sec)
    &&& is_opt_variant_of(e.br, mime, br, "br"@, cc, sec)
    &&& e.cache_control@ == cc
    &&& e.vary == vary
}

fn build_opt(
    mime: &str,
    form: Option<Vec<u8>>,
    encoding: &'static str,
    cache_control: &str,
    security_headers: &str,
) -> (r: Option<Variant>)
    ensures
        is_opt_variant_of(
            r,
            mime@,
            opt_bytes(form),
            encoding@,
            cache_control@,
            security_headers@,
        ),
{
    match form {
        Some(body) => Some(
            build_variant(
                mime,
                body.as_slice(),
                Some(encoding),
                true,
                cache_control,
                security_headers,
            ),
        ),
        None => None,
    }
}

/// Builds the entry of a file whose compressed forms are given.
pub fn assemble(
    url: &str,
    mime: &str,
    data: &[u8],
    gz: Option<Vec<u8>>,
    br: Option<Vec<u8>>,
    p: &Policy,
) -> (r: MemEntry)
    requires
        p.wf(),
    ensures
        is_mem_entry(r, url@, mime@, data@, opt_bytes(gz), opt_bytes(br), *p),
{
    let cc = p.cache_control_for(url);
    let sh = p.security_headers.as_str();
    let vary = gz.is_some() || br.is_some();
    MemEntry {
        identity: build_variant(mime, data, None, vary, cc, sh),
        gzip: build_opt(mime, gz, "gzip", cc, sh),
        br: build_opt(mime, br, "br", cc, sh),
        cache_control: cc.to_string(),
        vary,
    }
}

impl MemEntry {
    /// The body of the brotli form.
    pub open spec fn br_body(&self) -> Option<Seq<u8>> {
        match self.br {
            Some(v) => Some(v.body()),
            None => None,
        }
    }
}

/// Builds the in-memory entry of one file: identity always, gzip and brotli
/// where the type is compressible and the form is smaller.
pub fn make_cached(url: &str, mime: &str, data: &[u8], p: &Policy) -> (r: MemEntry)
    requires
        p.wf(),
        p.t.gzip_level <= 10,
    ensures
        is_mem_entry(r, url@, mime@, data@, gzip_form(mime@, data@, p.t), r.br_body(), *p),
        r.gzip matches Some(v) ==> gunzipped(v.body()) == Some(data@),
        brotli_form_allowed(mime@, data@, p.t, r.br_body()),
{
    let (gz, br) = compress_variants(mime, data, p);
    assemble(url, mime, data, gz, br, p)
}

/// A URL without its leading slashes.
pub open spec fn unrooted(url: Seq<char>) -> Seq<char>
    decreases url.len(),
{
    if url.len() > 0 && url[0] == '/' {
        unrooted(url.skip(1))
    } else {
        url
    }
}

/// Where the body of an encoding lies in the snapshot: the URL mirrored under a
/// directory for the encoding. Appending `.gz` to a shared base instead would
/// collide with a real file of that name.
pub open spec fn body_path(space: Seq<char>, url: Seq<char>) -> Seq<char> {
    space + "/"@ + unrooted(url)
}

/// Finds where the body of an encoding lies.
pub fn snapshot_path(space: &str, url: &str) -> (r: String)
    ensures
        r@ == body_path(space@, url@),
{
    let chars = chars_of(url);
    let mut i: usize = 0;
    assert(chars@.skip(0) == chars@);
    while i < chars.len() && chars[i] == '/'
        invariant
            0 <= i <= chars.len(),
            unrooted(chars@.skip(i as int)) == unrooted(chars@),
        decreases chars.len() - i,
    {
        assert(chars@.skip(i as int).skip(1) == chars@.skip(i + 1));
        i = i + 1;
    }
    let mut s = space.to_string();
    s.append("/");
    let rest = string_of(slice_subrange(chars.as_slice(), i, chars.len()));
    assert(rest@ =~= chars@.skip(i as int));
    s.append(rest.as_str());
    s
}

/// A disk variant is the one for a body under given headers.
pub open spec fn is_disk_variant_of(
    v: DiskVariant,
    url: Seq<char>,
    space: Seq<char>,
    mime: Seq<char>,
    body: Seq<u8>,
    encoding: Option<Seq<char>>,
    vary: bool,
    cache_control: Seq<char>,
    security: Seq<char>,
) -> bool {
    &&& v.header_ka@ == encode_utf8(
        variant_head(mime, body, encoding, vary, cache_control, security),
    )
    &&& valid_utf8(v.header_ka@)
    &&& v.path@ == body_path(space, url)
    &&& v.len == body.len()
    &&& v.etag@ == etag_text(body)
    &&& encoding_text(v.encoding) == encoding
}

/// A disk variant that may be absent is the one for a body that may be absent.
pub open spec fn is_opt_disk_variant_of(
    v: Option<DiskVariant>,
    url: Seq<char>,
    mime: Seq<char>,
    body: Option<Seq<u8>>,
    encoding: Seq<char>,
    cache_control: Seq<char>,
    security: Seq<char>,
) -> bool {
    match (v, body) {
        (Some(v), Some(b)) => is_disk_variant_of(
            v,
            url,
            encoding,
            mime,
            b,
            Some(encoding),
            true,
            cache_control,
            security,
        ),
        (None, None) => true,
        _ => false,
    }
}

/// A disk entry is the one for a file with given compressed forms.
pub open spec fn is_disk_entry(
    e: DiskEntry,
    url: Seq<char>,
    mime: Seq<char>,
    data: Seq<u8>,
    gz: Option<Seq<u8>>,
    br: Option<Seq<u8>>,
    p: Policy,
) -> bool {
    let vary = gz is Some || br is Some;
    let cc = cache_control_of(p.t, url);
    let sec = p.security_headers@;
    &&& is_disk_variant_of(e.identity, url, "identity"@, mime, data, None, vary, cc, sec)
    &&& is_opt_disk_variant_of(e.gzip, url, mime, gz, "gzip"@, cc, sec)
    &&& is_opt_disk_variant_of(e.br, url, mime, br, "br"@, cc, sec)
    &&& e.cache_control@ == cc
    &&& e.vary == vary
}

fn plan_variant(
    url: &str,
    space: &str,
    mime: &str,
    body: &[u8],
    encoding: Option<&'static str>,
    vary: bool,
    cache_control: &str,
    security_headers: &str,
) -> (r: DiskVariant)
    ensures
        is_disk_variant_of(
            r,
            url@,
            space@,
            mime@,
            body@,
            encoding_text(encoding),
            vary,
            cache_control@,
            security_headers@,
        ),
{
    let etag = etag_for(body);
    let header = build_header(
        mime,
        body.len(),
        etag.as_str(),
        encoding,
        vary,
        cache_control,
        security_headers,
    );
    let mut header_ka: Vec<u8> = Vec::new();
    header_ka.extend_from_slice(header.as_str().as_bytes());
    assert(header_ka@ =~= encode_utf8(header@));
    proof {
        encode_utf8_valid_utf8(header@);
    }
    DiskVariant {
        header_ka,
        path: snapshot_path(space, url),
        len: body.len() as u64,
        etag,
        encoding,
    }
}

fn plan_opt(
    url: &str,
    mime: &str,
    form: &Option<Vec<u8>>,
    encoding: &'static str,
    cache_control: &str,
    security_headers: &str,
) -> (r: Option<DiskVariant>)
    ensures
        is_opt_disk_variant_of(
            r,
            url@,
            mime@,
            opt_bytes(*form),
            encoding@,
            cache_control@,
            security_headers@,
        ),
{
    match form {
        Some(body) => Some(
            plan_variant(
                url,
                encoding,
                mime,
                body.as_slice(),
                Some(encoding),
                true,
                cache_control,
                security_headers,
            ),
        ),
        None => None,
    }
}

/// A disk entry with the compressed bodies that have to be written beside the
/// file's own for it to be true.
pub struct DiskPlan {
    pub entry: DiskEntry,
    pub gzip: Option<Vec<u8>>,
    pub br: Option<Vec<u8>>,
}

/// Plans the disk entry of a file whose compressed forms are given.
pub fn plan(
    url: &str,
    mime: &str,
    data: &[u8],
    gz: Option<Vec<u8>>,
    br: Option<Vec<u8>>,
    p: &Policy,
) -> (r: DiskPlan)
    requires
        p.wf(),
    ensures
        is_disk_entry(r.entry, url@, mime@, data@, opt_bytes(gz), opt_bytes(br), *p),
        r.gzip == gz,
        r.br == br,
{
    let cc = p.cache_control_for(url);
    let sh = p.security_headers.as_str();
    let vary = gz.is_some() || br.is_some();
    let entry = DiskEntry {
        identity: plan_variant(url, "identity", mime, data, None, vary, cc, sh),
        gzip: plan_opt(url, mime, &gz, "gzip", cc, sh),
        br: plan_opt(url, mime, &br, "br", cc, sh),
        cache_control: cc.to_string(),
        vary,
    };
    DiskPlan { entry, gzip: gz, br }
}

/// Plans the disk entry of one file. Headers are made just as in memory mode;
/// only the bodies are left to be written.
pub fn make_disk_entry(url: &str, mime: &str, data: &[u8], p: &Policy) -> (r: DiskPlan)
    requires
        p.wf(),
        p.t.gzip_level <= 10,
    ensures
        is_disk_entry(
            r.entry,
            url@,
            mime@,
            data@,
            gzip_form(mime@, data@, p.t),
            opt_bytes(r.br),
            *p,
        ),
        opt_bytes(r.gzip) == gzip_form(mime@, data@, p.t),
        r.gzip matches Some(g) ==> gunzipped(g@) == Some(data@),
        brotli_form_allowed(mime@, data@, p.t, opt_bytes(r.br)),
{
    let (gz, br) = compress_variants(mime, data, p);
    plan(url, mime, data, gz, br, p)
}

// ------------------------------------------------------------------ the cache

/// The length of a buffer that may be absent.
pub open spec fn opt_full_len(v: Option<Variant>) -> nat {
    match v {
        Some(v) => v.full_ka@.len(),
        None => 0,
    }
}

/// The length of a header that may be absent.
pub open spec fn opt_header_len(v: Option<DiskVariant>) -> nat {
    match v {
        Some(v) => v.header_ka@.len(),
        None => 0,
    }
}

/// A variant that may be absent is well formed.
pub open spec fn opt_wf(v: Option<Variant>) -> bool {
    match v {
        Some(v) => v.wf(),
        None => true,
    }
}

/// The header of a disk variant that may be absent is text.
pub open spec fn opt_disk_wf(v: Option<DiskVariant>) -> bool {
    match v {
        Some(v) => valid_utf8(v.header_ka@),
        None => true,
    }
}

impl Cached {
    /// Every header is text, and ends where its buffer says.
    pub open spec fn wf(&self) -> bool {
        match self {
            Cached::Mem(m) => m.identity.wf() && opt_wf(m.gzip) && opt_wf(m.br),
            Cached::Disk(d) => valid_utf8(d.identity.header_ka@) && opt_disk_wf(d.gzip)
                && opt_disk_wf(d.br),
        }
    }

    /// How many bytes of RAM the entry holds: whole responses in memory mode,
    /// headers in disk mode.
    pub open spec fn size(&self) -> nat {
        match self {
            Cached::Mem(m) => m.identity.full_ka@.len() + opt_full_len(m.gzip) + opt_full_len(m.br),
            Cached::Disk(d) => d.identity.header_ka@.len() + opt_header_len(d.gzip)
                + opt_header_len(d.br),
        }
    }

    /// Counts the bytes of RAM the entry holds, in a word wide enough for any
    /// three lengths.
    fn wide_size(&self) -> (r: u128)
        ensures
            r == self.size(),
            r <= 3 * usize::MAX,
    {
        match self {
            Cached::Mem(m) => {
                let gzip: u128 = match &m.gzip {
                    Some(v) => v.full_ka.len() as u128,
                    None => 0,
                };
                let br: u128 = match &m.br {
                    Some(v) => v.full_ka.len() as u128,
                    None => 0,
                };
                m.identity.full_ka.len() as u128 + gzip + br
            },
            Cached::Disk(d) => {
                let gzip: u128 = match &d.gzip {
                    Some(v) => v.header_ka.len() as u128,
                    None => 0,
                };
                let br: u128 = match &d.br {
                    Some(v) => v.header_ka.len() as u128,
                    None => 0,
                };
                d.identity.header_ka.len() as u128 + gzip + br
            },
        }
    }

    /// Counts the bytes of RAM the entry holds.
    pub fn retained_bytes(&self) -> (r: usize)
        requires
            self.size() <= usize::MAX,
        ensures
            r == self.size(),
    {
        self.wide_size() as usize
    }
}

/// The bytes that the entries under some keys hold.
pub open spec fn bytes_under(keys: Seq<Seq<char>>, m: Map<Seq<char>, Cached>) -> nat
    decreases keys.len(),
{
    if keys.len() == 0 {
        0
    } else {
        bytes_under(keys.drop_last(), m) + m[keys.last()].size()
    }
}

/// A built cache: URL path to entry.
pub struct SiteCache {
    urls: Vec<String>,
    map: StringHashMap<Cached>,
}

impl View for SiteCache {
    type V = Map<Seq<char>, Cached>;

    closed spec fn view(&self) -> Map<Seq<char>, Cached> {
        self.map@
    }
}

/// An entry under a key that is not looked at does not count.
proof fn lemma_bytes_elsewhere(
    keys: Seq<Seq<char>>,
    m: Map<Seq<char>, Cached>,
    k: Seq<char>,
    v: Cached,
)
    requires
        !keys.contains(k),
    ensures
        bytes_under(keys, m.insert(k, v)) == bytes_under(keys, m),
    decreases keys.len(),
{
    if keys.len() > 0 {
        assert(keys.contains(keys.last()));
        assert forall|x: Seq<char>| keys.drop_last().contains(x) implies keys.contains(x) by {}
        lemma_bytes_elsewhere(keys.drop_last(), m, k, v);
    }
}

/// The sum over a leading part of the keys is no greater than the whole.
proof fn lemma_bytes_grow(keys: Seq<Seq<char>>, m: Map<Seq<char>, Cached>, i: int)
    requires
        0 <= i <= keys.len(),
    ensures
        bytes_under(keys.take(i), m) <= bytes_under(keys, m),
    decreases keys.len() - i,
{
    if i == keys.len() {
        assert(keys.take(i) == keys);
    } else {
        assert(keys.take(i + 1).drop_last() == keys.take(i));
        lemma_bytes_grow(keys, m, i + 1);
    }
}

impl SiteCache {
    /// The URLs, in the order in which they came.
    pub closed spec fn keys(&self) -> Seq<Seq<char>> {
        strings(self.urls@)
    }

    /// The URLs are the keys of the map, each once, and the entries are well
    /// formed.
    pub open spec fn wf(&self) -> bool {
        &&& forall|k: Seq<char>| #[trigger] self@.contains_key(k) ==> self@[k].wf()
        &&& self.keys().no_duplicates()
        &&& forall|k: Seq<char>| self.keys().contains(k) <==> #[trigger] self@.contains_key(k)
    }

    /// The bytes of RAM that the entries hold.
    pub open spec fn held(&self) -> nat {
        bytes_under(self.keys(), self@)
    }

    /// The cache of a site with no document root.
    pub fn empty() -> (r: SiteCache)
        ensures
            r.wf(),
            r@ == Map::<Seq<char>, Cached>::empty(),
            r.held() == 0,
    {
        let r = SiteCache { urls: Vec::new(), map: StringHashMap::new() };
        assert(r.keys() =~= seq![]);
        r
    }

    /// How many URLs there are.
    pub fn count(&self) -> (r: usize)
        ensures
            r == self.keys().len(),
    {
        self.urls.len()
    }

    /// Looks up a URL.
    pub fn get(&self, url: &str) -> (r: Option<&Cached>)
        ensures
            match r {
                Some(c) => self@.contains_key(url@) && self@[url@] == *c,
                None => !self@.contains_key(url@),
            },
    {
        self.map.get(url)
    }

    /// Files an entry under a URL, in place of any that is there.
    pub fn insert(&mut self, url: String, cached: Cached)
        requires
            old(self).wf(),
            cached.wf(),
        ensures
            final(self).wf(),
            final(self)@ == old(self)@.insert(url@, cached),
            !old(self)@.contains_key(url@) ==> final(self).held() == old(self).held()
                + cached.size(),
    {
        let ghost before = *self;
        let known = self.map.contains_key(url.as_str());
        if !known {
            self.urls.push(url.clone());
            proof {
                assert(self.keys() =~= before.keys().push(url@));
                assert(self.keys().drop_last() =~= before.keys());
                lemma_bytes_elsewhere(before.keys(), before@, url@, cached);
            }
        }
        self.map.insert(url, cached);
        proof {
            if known {
                assert(self.keys() =~= before.keys());
            }
            assert forall|k: Seq<char>| self.keys().contains(k) <==> #[trigger] self@.contains_key(
                k,
            ) by {
                if !known {
                    if k == url@ {
                        assert(self.keys()[self.keys().len() - 1] == k);
                    } else if before.keys().contains(k) {
                        let i = choose|i: int| 0 <= i < before.keys().len() && before.keys()[i]
                            == k;
                        assert(self.keys()[i] == k);
                    } else if self.keys().contains(k) {
                        let i = choose|i: int| 0 <= i < self.keys().len() && self.keys()[i] == k;
                        assert(before.keys()[i] == k);
                    }
                }
                assert(before.keys().contains(k) <==> before@.contains_key(k));
            }
            assert forall|i: int, j: int|
                0 <= i < self.keys().len() && 0 <= j < self.keys().len() && i
                    != j implies self.keys()[i] != self.keys()[j] by {
                if !known {
                    let n = before.keys().len() as int;
                    assert(!before.keys().contains(url@));
                    if i < n {
                        assert(self.keys()[i] == before.keys()[i]);
                    }
                    if j < n {
                        assert(self.keys()[j] == before.keys()[j]);
                    }
                }
            }
        }
    }
}

/// Counts the bytes of RAM that a cache holds. A reload is seeded with what the
/// other live roots hold, so that the budget survives it.
pub fn cache_bytes(cache: &SiteCache) -> (r: usize)
    requires
        cache.wf(),
        cache.held() <= usize::MAX,
    ensures
        r == cache.held(),
{
    let mut sum: usize = 0;
    let mut i: usize = 0;
    let ghost keys = cache.keys();
    while i < cache.urls.len()
        invariant
            0 <= i <= cache.urls.len(),
            keys == strings(cache.urls@),
            keys == cache.keys(),
            cache.wf(),
            cache.held() <= usize::MAX,
            cache.held() == bytes_under(keys, cache@),
            sum == bytes_under(keys.take(i as int), cache@),
        decreases cache.urls.len() - i,
    {
        proof {
            assert(keys[i as int] == cache.urls@[i as int]@);
            assert(keys.contains(keys[i as int]));
            assert(keys.take(i + 1).drop_last() == keys.take(i as int));
            lemma_bytes_grow(keys, cache@, i + 1);
        }
        if let Some(c) = cache.get(cache.urls[i].as_str()) {
            sum = sum + c.retained_bytes();
        }
        i = i + 1;
    }
    assert(keys.take(cache.urls.len() as int) == keys);
    sum
}

// ------------------------------------------------------------- filling a cache

/// Hidden entries are skipped, with one exception: `.well-known` is a registered
/// URI prefix, not an editor artifact.
pub open spec fn hidden(name: Seq<char>) -> bool {
    name.len() > 0 && name[0] == '.' && name != ".well-known"@
}

/// Decides [`hidden`]. Both the walk and the change detection use it, so that
/// neither is blind to what the other sees.
pub fn is_hidden(name: &str) -> (r: bool)
    ensures
        r == hidden(name@),
{
    let chars = chars_of(name);
    chars.len() > 0 && chars[0] == '.' && !is_word(chars.as_slice(), ".well-known")
}

/// What a directory entry is, symbolic links not followed.
#[derive(Clone, Copy, PartialEq, Eq, Debug, Structural)]
pub enum Kind {
    Dir,
    File,
    Link,
    /// A device, a socket or the like.
    Other,
    /// An entry whose metadata could not be read.
    Unknown,
}

/// What to do with a directory entry.
pub enum Visit {
    /// Leave it out.
    Skip,
    /// Walk it as a directory, under this URL.
    Descend(String),
    /// Leave it out and say so: it is larger than any file may be.
    Oversized(String),
    /// Give up the build: the file cannot fit the budget.
    OverBudget(String),
    /// Read it and file it under this URL.
    Load(String),
}

/// What a [`Visit`] says.
#[verifier::ext_equal]
pub enum VisitModel {
    Skip,
    Descend(Seq<char>),
    Oversized(Seq<char>),
    OverBudget(Seq<char>),
    Load(Seq<char>),
}

impl View for Visit {
    type V = VisitModel;

    open spec fn view(&self) -> VisitModel {
        match self {
            Visit::Skip => VisitModel::Skip,
            Visit::Descend(u) => VisitModel::Descend(u@),
            Visit::Oversized(u) => VisitModel::Oversized(u@),
            Visit::OverBudget(u) => VisitModel::OverBudget(u@),
            Visit::Load(u) => VisitModel::Load(u@),
        }
    }
}

/// What can fail on the way through a document root.
#[derive(Clone, Copy, PartialEq, Eq, Debug, Structural)]
pub enum Fault {
    /// A directory cannot be listed.
    Listing,
    /// A file cannot be read.
    Reading,
    /// The bodies of a file cannot be written to the snapshot.
    Snapshot,
}

/// How a build goes on after a [`Fault`].
#[derive(Clone, Copy, PartialEq, Eq, Debug, Structural)]
pub enum Course {
    GiveUp,
    /// Leave the file out, say so, and go on.
    PassOver,
}

/// What a fault means for the build. A directory that cannot be listed ends it: a
/// cache that leaves it out would answer 404 for all of it while the log reports
/// success. A single file is left out.
pub open spec fn course_of(f: Fault) -> Course {
    match f {
        Fault::Listing => Course::GiveUp,
        Fault::Reading => Course::PassOver,
        Fault::Snapshot => Course::PassOver,
    }
}

/// Decides how a build goes on after a fault.
pub fn course_after(f: Fault) -> (r: Course)
    ensures
        r == course_of(f),
{
    match f {
        Fault::Listing => Course::GiveUp,
        Fault::Reading | Fault::Snapshot => Course::PassOver,
    }
}

/// The URL of a directory entry.
pub open spec fn entry_url(prefix: Seq<char>, name: Seq<char>) -> Seq<char> {
    prefix + "/"@ + name
}

/// What becomes of a directory entry while `total` bytes are held. Disk mode
/// holds no bodies in RAM, so the budget does not gate it.
pub open spec fn visited(
    t: Tuning,
    storage: Storage,
    total: nat,
    prefix: Seq<char>,
    name: Seq<char>,
    kind: Kind,
    size: nat,
) -> VisitModel {
    let url = entry_url(prefix, name);
    if hidden(name) {
        VisitModel::Skip
    } else if kind == Kind::Dir {
        VisitModel::Descend(url)
    } else if kind == Kind::File {
        if size > t.max_file_size {
            VisitModel::Oversized(url)
        } else if storage == Storage::Memory && total + size > t.max_total_bytes {
            VisitModel::OverBudget(url)
        } else {
            VisitModel::Load(url)
        }
    } else {
        VisitModel::Skip
    }
}

/// Whether an entry of `size` bytes may be added to `total`. In disk mode only
/// the machine's own limit stands.
pub open spec fn fits(t: Tuning, storage: Storage, total: nat, size: nat) -> bool {
    if storage == Storage::Memory {
        total + size <= t.max_total_bytes
    } else {
        total + size <= usize::MAX
    }
}

/// A builder after one more entry: the entry is charged for what it retains, and
/// filed.
pub open spec fn took_in(
    before: CacheBuilder,
    after: CacheBuilder,
    url: Seq<char>,
    cached: Cached,
) -> bool {
    &&& after.total == before.total + cached.size()
    &&& after.cache@ == before.cache@.insert(url, cached)
    &&& !before.cache@.contains_key(url) ==> after.cache.held() == before.cache.held()
        + cached.size()
}

/// A cache while it is filled. `total` counts every byte held, those of other
/// sites among them: the budget is shared.
pub struct CacheBuilder<'a> {
    pub policy: &'a Policy,
    pub total: usize,
    pub cache: SiteCache,
}

impl<'a> CacheBuilder<'a> {
    /// Starts an empty cache, with `total` bytes already held.
    pub fn new(total: usize, policy: &'a Policy) -> (r: CacheBuilder<'a>)
        ensures
            r.policy == policy,
            r.total == total,
            r.cache.wf(),
            r.cache@ == Map::<Seq<char>, Cached>::empty(),
            r.cache.held() == 0,
    {
        CacheBuilder { policy, total, cache: SiteCache::empty() }
    }

    /// Decides what to do with a directory entry. `size` is what its metadata
    /// says; nothing is read yet.
    pub fn visit(&self, prefix: &str, name: &str, kind: Kind, size: usize) -> (r: Visit)
        ensures
            r@ == visited(
                self.policy.t,
                self.policy.storage,
                self.total as nat,
                prefix@,
                name@,
                kind,
                size as nat,
            ),
    {
        if is_hidden(name) {
            return Visit::Skip;
        }
        let mut url = prefix.to_string();
        url.append("/");
        url.append(name);
        match kind {
            Kind::Dir => Visit::Descend(url),
            Kind::File => {
                if size > self.policy.t.max_file_size {
                    Visit::Oversized(url)
                } else if self.policy.storage == Storage::Memory && self.total as u128 + size as u128
                    > self.policy.t.max_total_bytes as u128 {
                    Visit::OverBudget(url)
                } else {
                    Visit::Load(url)
                }
            },
            _ => Visit::Skip,
        }
    }

    /// Makes the in-memory entry of a file that was read.
    pub fn hold(&self, url: &str, data: &[u8]) -> (r: Cached)
        requires
            self.policy.wf(),
            self.policy.t.gzip_level <= 10,
        ensures
            r matches Cached::Mem(e) && is_mem_entry(
                e,
                url@,
                mime_of(url@),
                data@,
                gzip_form(mime_of(url@), data@, self.policy.t),
                e.br_body(),
                *self.policy,
            ) && brotli_form_allowed(mime_of(url@), data@, self.policy.t, e.br_body()),
            r.wf(),
    {
        Cached::Mem(make_cached(url, mime_for(url), data, self.policy))
    }

    /// Plans the disk entry of a file that was read. It is to be filed only once
    /// its bodies are written.
    pub fn stage(&self, url: &str, data: &[u8]) -> (r: DiskPlan)
        requires
            self.policy.wf(),
            self.policy.t.gzip_level <= 10,
        ensures
            is_disk_entry(
                r.entry,
                url@,
                mime_of(url@),
                data@,
                gzip_form(mime_of(url@), data@, self.policy.t),
                opt_bytes(r.br),
                *self.policy,
            ),
            opt_bytes(r.gzip) == gzip_form(mime_of(url@), data@, self.policy.t),
            brotli_form_allowed(mime_of(url@), data@, self.policy.t, opt_bytes(r.br)),
            Cached::Disk(r.entry).wf(),
    {
        make_disk_entry(url, mime_for(url), data, self.policy)
    }

    /// Charges an entry for what it retains, which is not what its file weighs,
    /// and files it. Where it does not fit, nothing changes and the build is to
    /// be given up.
    pub fn take_in(&mut self, url: String, cached: Cached) -> (r: bool)
        requires
            old(self).cache.wf(),
            cached.wf(),
        ensures
            final(self).cache.wf(),
            final(self).policy == old(self).policy,
            r == fits(
                old(self).policy.t,
                old(self).policy.storage,
                old(self).total as nat,
                cached.size(),
            ),
            r ==> took_in(*old(self), *final(self), url@, cached),
            r && final(self).policy.storage == Storage::Memory ==> final(self).total
                <= final(self).policy.t.max_total_bytes,
            !r ==> *final(self) == *old(self),
    {
        let stored: u128 = cached.wide_size();
        let now: u128 = self.total as u128 + stored;
        let limit: usize = match self.policy.storage {
            Storage::Memory => self.policy.t.max_total_bytes,
            Storage::Disk => usize::MAX,
        };
        if now > limit as u128 {
            return false;
        }
        self.total = now as usize;
        self.cache.insert(url, cached);
        true
    }
}

// ----------------------------------------------------------------------- laws

/// A URL with exactly one slash in front.
pub open spec fn rooted(url: Seq<char>) -> bool {
    url.len() >= 2 && url[0] == '/' && url[1] != '/'
}

/// The directories that the bodies of the encodings lie in.
pub open spec fn is_space(space: Seq<char>) -> bool {
    space == "identity"@ || space == "gzip"@ || space == "br"@
}

/// A walk that starts at the root names every entry by a URL with exactly one
/// slash in front.
pub proof fn law_walked_urls_are_rooted(prefix: Seq<char>, name: Seq<char>)
    requires
        prefix.len() == 0 || rooted(prefix),
        name.len() > 0,
        name[0] != '/',
    ensures
        rooted(entry_url(prefix, name)),
{
    reveal_strlit("/");
}

/// One URL is one file: two entries are filed under the same URL only where both
/// the directory and the name agree.
pub proof fn law_walked_urls_are_distinct(
    prefix1: Seq<char>,
    name1: Seq<char>,
    prefix2: Seq<char>,
    name2: Seq<char>,
)
    requires
        !name1.contains('/'),
        !name2.contains('/'),
        entry_url(prefix1, name1) == entry_url(prefix2, name2),
    ensures
        prefix1 == prefix2,
        name1 == name2,
{
    reveal_strlit("/");
    let url = entry_url(prefix1, name1);
    assert forall|i: int| prefix1.len() < i < url.len() implies url[i] != '/' by {
        assert(url[i] == name1[i - prefix1.len() - 1]);
    }
    assert forall|i: int| prefix2.len() < i < url.len() implies url[i] != '/' by {
        assert(url[i] == name2[i - prefix2.len() - 1]);
    }
    assert(url[prefix1.len() as int] == '/' && url[prefix2.len() as int] == '/');
    assert(prefix1.len() == prefix2.len());
    assert(prefix1 =~= url.take(prefix1.len() as int));
    assert(prefix2 =~= url.take(prefix2.len() as int));
    assert(name1 =~= url.skip(prefix1.len() as int + 1));
    assert(name2 =~= url.skip(prefix2.len() as int + 1));
}

/// No two bodies share a place in the snapshot: two encodings of any two walked
/// URLs have the same path only if they are the same encoding of the same URL.
pub proof fn law_snapshot_paths_are_distinct(
    space1: Seq<char>,
    url1: Seq<char>,
    space2: Seq<char>,
    url2: Seq<char>,
)
    requires
        is_space(space1),
        is_space(space2),
        rooted(url1),
        rooted(url2),
        body_path(space1, url1) == body_path(space2, url2),
    ensures
        space1 == space2,
        url1 == url2,
{
    reveal_strlit("/");
    reveal_strlit("identity");
    reveal_strlit("gzip");
    reveal_strlit("br");
    reveal_with_fuel(unrooted, 2);
    let p = body_path(space1, url1);
    assert(unrooted(url1) == url1.skip(1));
    assert(unrooted(url2) == url2.skip(1));
    assert(p =~= space1 + seq!['/'] + url1.skip(1));
    assert(p =~= space2 + seq!['/'] + url2.skip(1));
    assert forall|i: int| 0 <= i < space1.len() implies p[i] == space1[i] && p[i] != '/' by {}
    assert forall|i: int| 0 <= i < space2.len() implies p[i] == space2[i] && p[i] != '/' by {}
    assert(p[space1.len() as int] == '/');
    assert(p[space2.len() as int] == '/');
    assert(space1.len() == space2.len());
    assert(space1 =~= space2);
    assert(url1.skip(1) =~= p.skip(space1.len() as int + 1));
    assert(url2.skip(1) =~= p.skip(space2.len() as int + 1));
    assert(url1 =~= seq!['/'] + url1.skip(1));
    assert(url2 =~= seq!['/'] + url2.skip(1));
}

/// Where a body is kept does not show on the wire: the headers of a file in
/// memory and on disk are the same, byte for byte, encoding by encoding.
pub proof fn law_both_storages_send_the_same_headers(
    m: MemEntry,
    d: DiskEntry,
    url: Seq<char>,
    mime: Seq<char>,
    data: Seq<u8>,
    gz: Option<Seq<u8>>,
    br: Option<Seq<u8>>,
    pm: Policy,
    pd: Policy,
)
    requires
        is_mem_entry(m, url, mime, data, gz, br, pm),
        is_disk_entry(d, url, mime, data, gz, br, pd),
        pm.t == pd.t,
        pm.security_headers@ == pd.security_headers@,
    ensures
        m.identity.head() == d.identity.header_ka@,
        m.identity.etag@ == d.identity.etag@,
        m.gzip is Some <==> d.gzip is Some,
        m.gzip matches Some(v) ==> v.head() == d.gzip->0.header_ka@ && v.etag@ == d.gzip->0.etag@,
        m.br is Some <==> d.br is Some,
        m.br matches Some(v) ==> v.head() == d.br->0.header_ka@ && v.etag@ == d.br->0.etag@,
        m.cache_control@ == d.cache_control@,
        m.vary == d.vary,
{
    assert(m.identity.head() =~= d.identity.header_ka@);
    match m.gzip {
        Some(v) => assert(v.head() =~= d.gzip->0.header_ka@),
        None => {},
    }
    match m.br {
        Some(v) => assert(v.head() =~= d.br->0.header_ka@),
        None => {},
    }
}

/// A response varies by encoding exactly where there is an encoding to choose.
pub proof fn law_vary_means_a_choice(
    e: MemEntry,
    url: Seq<char>,
    mime: Seq<char>,
    data: Seq<u8>,
    gz: Option<Seq<u8>>,
    br: Option<Seq<u8>>,
    p: Policy,
)
    requires
        is_mem_entry(e, url, mime, data, gz, br, p),
    ensures
        e.vary <==> e.gzip is Some || e.br is Some,
{
}

/// A fill: builders one after the other, each with one more entry than the one
/// before it.
pub open spec fn is_fill(
    builders: Seq<CacheBuilder>,
    urls: Seq<Seq<char>>,
    entries: Seq<Cached>,
) -> bool {
    &&& entries.len() == urls.len()
    &&& builders.len() == urls.len() + 1
    &&& forall|i: int|
        0 <= i < urls.len() ==> took_in(
            #[trigger] builders[i],
            builders[i + 1],
            urls[i],
            entries[i],
        )
}

/// A fill up to some entry.
proof fn lemma_fill(
    builders: Seq<CacheBuilder>,
    urls: Seq<Seq<char>>,
    entries: Seq<Cached>,
    n: int,
)
    requires
        is_fill(builders, urls, entries),
        urls.no_duplicates(),
        builders[0].cache@ == Map::<Seq<char>, Cached>::empty(),
        builders[0].cache.held() == 0,
        0 <= n <= urls.len(),
    ensures
        builders[n].total == builders[0].total + builders[n].cache.held(),
        forall|k: Seq<char>| #[trigger]
            builders[n].cache@.contains_key(k) ==> urls.take(n).contains(k),
    decreases n,
{
    if n > 0 {
        lemma_fill(builders, urls, entries, n - 1);
        let before = builders[n - 1];
        let after = builders[n];
        assert(took_in(before, after, urls[n - 1], entries[n - 1]));
        if before.cache@.contains_key(urls[n - 1]) {
            assert(urls.take(n - 1).contains(urls[n - 1]));
            let i = choose|i: int|
                0 <= i < n - 1 && #[trigger] urls.take(n - 1)[i] == urls[n - 1];
            assert(urls[i] == urls[n - 1]);
        }
        assert forall|k: Seq<char>| #[trigger] after.cache@.contains_key(k) implies urls.take(
            n,
        ).contains(k) by {
            if k == urls[n - 1] {
                assert(urls.take(n)[n - 1] == k);
            } else {
                assert(before.cache@.contains_key(k));
                let i = choose|i: int|
                    0 <= i < n - 1 && #[trigger] urls.take(n - 1)[i] == k;
                assert(urls.take(n)[i] == k);
            }
        }
    }
}

/// Over a whole fill, what was charged is what is held: where no two entries have
/// the same URL, the total has grown by exactly the bytes that the cache retains.
pub proof fn law_what_is_charged_is_what_is_held(
    builders: Seq<CacheBuilder>,
    urls: Seq<Seq<char>>,
    entries: Seq<Cached>,
)
    requires
        is_fill(builders, urls, entries),
        urls.no_duplicates(),
        builders[0].cache@ == Map::<Seq<char>, Cached>::empty(),
        builders[0].cache.held() == 0,
    ensures
        builders.last().total - builders[0].total == builders.last().cache.held(),
{
    lemma_fill(builders, urls, entries, urls.len() as int);
}

// ------------------------------------------------------------- laws of caching

/// A character that is a hexadecimal digit.
pub open spec fn is_hex_letter_or_digit(c: char) -> bool {
    '0' <= c <= '9' || 'a' <= c <= 'f' || 'A' <= c <= 'F'
}

proof fn lemma_hex_char(c: char)
    ensures
        is_hex(c) <==> is_hex_letter_or_digit(c),
        is_digit(c) <==> '0' <= c <= '9',
{
}

/// A file is taken to carry a content hash where its name ends, before its last dot,
/// in a hyphen and at least eight hexadecimal digits, a letter among them: a date is
/// no hash. The directories that it lies in do not count.
pub proof fn law_fingerprints_are_hashes(
    dir: Seq<char>,
    base: Seq<char>,
    hash: Seq<char>,
    ext: Seq<char>,
)
    requires
        !base.contains('/') && !hash.contains('/') && !ext.contains('/'),
        !ext.contains('.'),
        !hash.contains('-'),
    ensures
        ({
            let name = base + seq!['-'] + hash + seq!['.'] + ext;
            let is_hash = hash.len() >= 8 && (forall|i: int|
                0 <= i < hash.len() ==> is_hex_letter_or_digit(#[trigger] hash[i])) && (exists|
                i: int,
            | 0 <= i < hash.len() && !('0' <= (#[trigger] hash[i]) <= '9'));
            &&& fingerprinted(dir + seq!['/'] + name) <==> is_hash
            &&& fingerprinted(name) <==> is_hash
        }),
{
    let stem = base + seq!['-'] + hash;
    let name = base + seq!['-'] + hash + seq!['.'] + ext;
    assert(name =~= stem + seq!['.'] + ext);
    assert(!name.contains('/')) by {
        assert forall|i: int| 0 <= i < name.len() implies name[i] != '/' by {
            if i < base.len() {
                assert(base.contains(base[i]));
            } else if base.len() < i < stem.len() {
                assert(hash.contains(hash[i - base.len() - 1]));
            } else if i > stem.len() {
                assert(ext.contains(ext[i - stem.len() - 1]));
            }
        }
    }
    law_a_back_cut_is_at_the_last(dir, '/', name);
    law_a_back_cut_is_at_the_last(stem, '.', ext);
    law_a_back_cut_is_at_the_last(base, '-', hash);
    assert(name_suffix(name) == Some(hash));
    assert(name_suffix(dir + seq!['/'] + name) == Some(hash));
    lemma_is_hash(hash);
}

proof fn lemma_is_hash(hash: Seq<char>)
    ensures
        (forall|i: int| 0 <= i < hash.len() ==> is_hex(#[trigger] hash[i])) <==> (forall|i: int|
            0 <= i < hash.len() ==> is_hex_letter_or_digit(#[trigger] hash[i])),
        (exists|i: int| 0 <= i < hash.len() && !is_digit(#[trigger] hash[i])) <==> (exists|i: int|
            0 <= i < hash.len() && !('0' <= (#[trigger] hash[i]) <= '9')),
{
    assert forall|i: int| 0 <= i < hash.len() implies (is_hex(#[trigger] hash[i])
        <==> is_hex_letter_or_digit(hash[i])) && (is_digit(hash[i]) <==> '0' <= hash[i] <= '9') by {
        lemma_hex_char(hash[i]);
    }
    if forall|i: int| 0 <= i < hash.len() ==> is_hex(#[trigger] hash[i]) {
        assert forall|i: int| 0 <= i < hash.len() implies is_hex_letter_or_digit(
            #[trigger] hash[i],
        ) by {
            assert(is_hex(hash[i]));
        }
    }
    if forall|i: int| 0 <= i < hash.len() ==> is_hex_letter_or_digit(#[trigger] hash[i]) {
        assert forall|i: int| 0 <= i < hash.len() implies is_hex(#[trigger] hash[i]) by {
            assert(is_hex_letter_or_digit(hash[i]));
        }
    }
}

/// A name without a hyphen before its last dot, or without a dot, carries no hash.
pub proof fn law_plain_names_carry_no_hash(dir: Seq<char>, base: Seq<char>, ext: Seq<char>)
    requires
        !base.contains('/') && !ext.contains('/'),
        !base.contains('-'),
        !ext.contains('.'),
    ensures
        !fingerprinted(dir + seq!['/'] + (base + seq!['.'] + ext)),
        !fingerprinted(dir + seq!['/'] + ext),
{
    let name = base + seq!['.'] + ext;
    assert(!name.contains('/')) by {
        assert forall|i: int| 0 <= i < name.len() implies name[i] != '/' by {
            if i < base.len() {
                assert(base.contains(base[i]));
            } else if i > base.len() {
                assert(ext.contains(ext[i - base.len() - 1]));
            }
        }
    }
    law_a_back_cut_is_at_the_last(dir, '/', name);
    law_a_back_cut_is_at_the_last(base, '.', ext);
    law_a_back_cut_is_at_the_last(seq![], '-', base);
    law_a_back_cut_is_at_the_last(dir, '/', ext);
}

/// How long a file may be kept: one that carries a hash for its own time and without
/// asking, every other for the other time and only as long as it is asked for again.
pub proof fn law_how_long_a_file_may_be_kept(t: Tuning, url: Seq<char>)
    ensures
        fingerprinted(url) ==> cache_control_of(t, url) == "public, max-age="@ + dec_text(
            t.immutable_max_age as nat,
        ) + ", immutable"@,
        !fingerprinted(url) ==> cache_control_of(t, url) == "public, max-age="@ + dec_text(
            t.cache_max_age as nat,
        ) + ", must-revalidate"@,
{
}

/// Content is compressible where its type is a text, or says that it is JavaScript,
/// JSON, XML, SVG or WebAssembly, wherever in the type that stands; otherwise not.
pub proof fn law_what_is_compressible(mime: Seq<char>, a: Seq<char>, b: Seq<char>)
    ensures
        compressible("text/"@ + b),
        compressible(a + "javascript"@ + b),
        compressible(a + "json"@ + b),
        compressible(a + "xml"@ + b),
        compressible(a + "svg"@ + b),
        compressible(a + "wasm"@ + b),
        compressible(mime) ==> "text/"@.is_prefix_of(mime) || exists|i: int, j: int|
            0 <= i <= j <= mime.len() && is_code_word(#[trigger] mime.subrange(i, j)),
{
    let t = "text/"@ + b;
    assert("text/"@ =~= t.subrange(0, "text/"@.len() as int));
    lemma_run_is_found(a, "javascript"@, b);
    lemma_run_is_found(a, "json"@, b);
    lemma_run_is_found(a, "xml"@, b);
    lemma_run_is_found(a, "svg"@, b);
    lemma_run_is_found(a, "wasm"@, b);
    lemma_found_run(mime, "javascript"@);
    lemma_found_run(mime, "json"@);
    lemma_found_run(mime, "xml"@);
    lemma_found_run(mime, "svg"@);
    lemma_found_run(mime, "wasm"@);
}

/// A word by which a type says that it is code or marked-up text.
pub open spec fn is_code_word(w: Seq<char>) -> bool {
    w == "javascript"@ || w == "json"@ || w == "xml"@ || w == "svg"@ || w == "wasm"@
}

proof fn lemma_run_is_found(a: Seq<char>, w: Seq<char>, b: Seq<char>)
    ensures
        first_run(a + w + b, w) is Some,
{
    let s = a + w + b;
    let n = a.len() as int;
    assert(s.subrange(n, n + w.len()) =~= w);
    lemma_first_run_from(s, w, 0);
}

proof fn lemma_found_run(s: Seq<char>, w: Seq<char>)
    requires
        is_code_word(w),
    ensures
        first_run(s, w) is Some ==> exists|i: int, j: int|
            0 <= i <= j <= s.len() && is_code_word(#[trigger] s.subrange(i, j)),
{
    lemma_first_run_from(s, w, 0);
    if let Some(i) = first_run(s, w) {
        assert(is_code_word(s.subrange(i, i + w.len())));
    }
}

/// A compressed form is kept only where it pays: compression is on, the type is
/// compressible, the file is neither below the floor nor above the ceiling of its
/// coding, and the form is smaller than the file. Where all of that holds it is
/// kept.
pub proof fn law_forms_are_kept_where_they_pay(
    mime: Seq<char>,
    data: Seq<u8>,
    t: Tuning,
    br: Option<Seq<u8>>,
)
    requires
        brotli_form_allowed(mime, data, t, br),
    ensures
        gzip_form(mime, data, t) matches Some(g) ==> {
            &&& t.compression && compressible(mime)
            &&& t.min_compress_bytes <= data.len() <= t.max_gzip_bytes
            &&& g == gzip_bytes(data, t.gzip_level) && g.len() < data.len()
        },
        t.compression && compressible(mime) && t.min_compress_bytes <= data.len()
            <= t.max_gzip_bytes && gzip_bytes(data, t.gzip_level).len() < data.len() ==> gzip_form(
            mime,
            data,
            t,
        ) is Some,
        br matches Some(b) ==> {
            &&& t.compression && compressible(mime)
            &&& t.min_compress_bytes <= data.len() <= t.max_brotli_bytes
            &&& b.len() < data.len() && unbrotlied(b) == Some(data)
            &&& brotli_may_give(data, t.brotli_quality, b)
        },
        br is None && t.compression && compressible(mime) && t.min_compress_bytes <= data.len()
            <= t.max_brotli_bytes ==> exists|stream: Seq<u8>| #[trigger]
            brotli_may_give(data, t.brotli_quality, stream) && unbrotlied(stream) == Some(data)
                && stream.len() >= data.len(),
{
}

/// An entry in memory answers with the file: each of its encodings holds the body of
/// that encoding, under a header with the type and the caching rule of the file, its
/// own length and its own validator, and the name of the coding.
pub proof fn law_entries_hold_the_file(
    e: MemEntry,
    url: Seq<char>,
    mime: Seq<char>,
    data: Seq<u8>,
    gz: Option<Seq<u8>>,
    br: Option<Seq<u8>>,
    p: Policy,
)
    requires
        is_mem_entry(e, url, mime, data, gz, br, p),
    ensures
        holds_form(e.identity, mime, data, None, e.vary, cache_control_of(p.t, url), p),
        gz is Some <==> e.gzip is Some,
        gz matches Some(g) ==> holds_form(
            e.gzip->0,
            mime,
            g,
            Some("gzip"@),
            true,
            cache_control_of(p.t, url),
            p,
        ),
        br is Some <==> e.br is Some,
        br matches Some(b) ==> holds_form(
            e.br->0,
            mime,
            b,
            Some("br"@),
            true,
            cache_control_of(p.t, url),
            p,
        ),
        e.vary <==> gz is Some || br is Some,
        e.cache_control@ == cache_control_of(p.t, url),
        Cached::Mem(e).size() == e.identity.full_ka@.len() + (match e.gzip {
            Some(v) => v.full_ka@.len(),
            None => 0,
        }) + (match e.br {
            Some(v) => v.full_ka@.len(),
            None => 0,
        }),
{
    let cc = cache_control_of(p.t, url);
    let sec = p.security_headers@;
    law_a_variant_is_its_header_and_its_body(e.identity, mime, data, None, e.vary, cc, sec);
    if let Some(g) = gz {
        law_a_variant_is_its_header_and_its_body(
            e.gzip->0,
            mime,
            g,
            Some("gzip"@),
            true,
            cc,
            sec,
        );
    }
    if let Some(b) = br {
        law_a_variant_is_its_header_and_its_body(e.br->0, mime, b, Some("br"@), true, cc, sec);
    }
}

/// A variant is the header and the body of one encoding of a file.
pub open spec fn holds_form(
    v: Variant,
    mime: Seq<char>,
    body: Seq<u8>,
    encoding: Option<Seq<char>>,
    vary: bool,
    cache_control: Seq<char>,
    p: Policy,
) -> bool {
    &&& v.full_ka@ == encode_utf8(
        ok_head(
            mime,
            body.len(),
            etag_text(body),
            encoding,
            vary,
            cache_control,
            p.security_headers@,
        ),
    ) + body
    &&& v.body() == body
    &&& v.etag@ == etag_text(body)
    &&& encoding_text(v.encoding) == encoding
}

/// An entry on disk answers with the file too: each of its encodings has the header
/// of the body that lies at its path, and the length of that body; each encoding
/// lies in a directory of its own. What counts as held is the headers alone.
pub proof fn law_disk_entries_stand_for_the_file(
    e: DiskEntry,
    url: Seq<char>,
    mime: Seq<char>,
    data: Seq<u8>,
    gz: Option<Seq<u8>>,
    br: Option<Seq<u8>>,
    p: Policy,
)
    requires
        is_disk_entry(e, url, mime, data, gz, br, p),
        url.len() > 1 && url[0] == '/' && url[1] != '/',
    ensures
        stands_for(e.identity, "identity"@ + url, mime, data, None, e.vary, url, p),
        gz is Some <==> e.gzip is Some,
        gz matches Some(g) ==> stands_for(
            e.gzip->0,
            "gzip"@ + url,
            mime,
            g,
            Some("gzip"@),
            true,
            url,
            p,
        ),
        br is Some <==> e.br is Some,
        br matches Some(b) ==> stands_for(
            e.br->0,
            "br"@ + url,
            mime,
            b,
            Some("br"@),
            true,
            url,
            p,
        ),
        e.vary <==> gz is Some || br is Some,
        e.cache_control@ == cache_control_of(p.t, url),
        Cached::Disk(e).size() == e.identity.header_ka@.len() + (match e.gzip {
            Some(v) => v.header_ka@.len(),
            None => 0,
        }) + (match e.br {
            Some(v) => v.header_ka@.len(),
            None => 0,
        }),
{
    lemma_body_path("identity"@, url);
    lemma_body_path("gzip"@, url);
    lemma_body_path("br"@, url);
}

proof fn lemma_body_path(space: Seq<char>, url: Seq<char>)
    requires
        url.len() > 1 && url[0] == '/' && url[1] != '/',
    ensures
        body_path(space, url) == space + url,
{
    reveal_strlit("/");
    reveal_with_fuel(unrooted, 2);
    assert(unrooted(url) == url.skip(1));
    assert(body_path(space, url) =~= space + url);
}

/// A disk variant is the header of one encoding of a file, and where its body lies.
pub open spec fn stands_for(
    v: DiskVariant,
    path: Seq<char>,
    mime: Seq<char>,
    body: Seq<u8>,
    encoding: Option<Seq<char>>,
    vary: bool,
    url: Seq<char>,
    p: Policy,
) -> bool {
    &&& v.header_ka@ == encode_utf8(
        ok_head(
            mime,
            body.len(),
            etag_text(body),
            encoding,
            vary,
            cache_control_of(p.t, url),
            p.security_headers@,
        ),
    )
    &&& v.path@ == path
    &&& v.len == body.len()
    &&& v.etag@ == etag_text(body)
    &&& encoding_text(v.encoding) == encoding
}

/// What is hidden: every name with a dot in front, but for the one that is a
/// registered prefix of URLs.
pub proof fn law_names_with_a_dot_in_front_are_hidden(name: Seq<char>)
    ensures
        hidden(seq!['.'] + name) <==> name != "well-known"@,
        name.len() == 0 || name[0] != '.' ==> !hidden(name),
{
    reveal_strlit(".well-known");
    reveal_strlit("well-known");
    let n = seq!['.'] + name;
    assert(n[0] == '.');
    assert(n.skip(1) =~= name);
    assert(".well-known"@.skip(1) =~= "well-known"@);
    assert(seq!['.'] + "well-known"@ =~= ".well-known"@);
}

/// What becomes of an entry of a directory. What is hidden, a symbolic link, a device
/// or what cannot be looked at is left out; a directory is entered under its URL; a
/// file is read, unless it is larger than any file may be, or, where bodies are held
/// in memory, larger than what the budget leaves.
pub proof fn law_what_becomes_of_an_entry(
    t: Tuning,
    storage: Storage,
    total: nat,
    prefix: Seq<char>,
    name: Seq<char>,
    size: nat,
)
    ensures
        ({
            let url = prefix + seq!['/'] + name;
            let v = |kind: Kind| visited(t, storage, total, prefix, name, kind, size);
            &&& hidden(name) ==> forall|kind: Kind| #[trigger] v(kind) == VisitModel::Skip
            &&& v(Kind::Link) == VisitModel::Skip
            &&& v(Kind::Other) == VisitModel::Skip
            &&& v(Kind::Unknown) == VisitModel::Skip
            &&& !hidden(name) ==> v(Kind::Dir) == VisitModel::Descend(url)
            &&& !hidden(name) && size > t.max_file_size ==> v(Kind::File) == VisitModel::Oversized(
                url,
            )
            &&& !hidden(name) && size <= t.max_file_size && storage == Storage::Memory && total
                + size > t.max_total_bytes ==> v(Kind::File) == VisitModel::OverBudget(url)
            &&& !hidden(name) && size <= t.max_file_size && (storage == Storage::Disk || total
                + size <= t.max_total_bytes) ==> v(Kind::File) == VisitModel::Load(url)
        }),
{
    reveal_strlit("/");
    assert("/"@ =~= seq!['/']);
    assert(entry_url(prefix, name) =~= prefix + seq!['/'] + name);
}

/// What fits: in memory mode what the budget leaves, all sites taken together; on
/// disk whatever can be counted.
pub proof fn law_what_fits(t: Tuning, total: nat, size: nat)
    ensures
        fits(t, Storage::Memory, total, size) <==> total + size <= t.max_total_bytes,
        fits(t, Storage::Disk, total, size) <==> total + size <= usize::MAX,
        course_of(Fault::Listing) == Course::GiveUp,
        course_of(Fault::Reading) == Course::PassOver,
        course_of(Fault::Snapshot) == Course::PassOver,
{
}

} // verus!
