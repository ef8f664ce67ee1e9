//! Requests and what they are answered with.
use std::sync::Arc;

use bare_server::cache::{CacheBuilder, Cached, Kind, SiteCache, Visit};
use bare_server::config::{parse_config, Config, HeaderConfig, SiteConfig, Storage, Tuning};
use bare_server::conn::{
    body_part, take_early, Action, Conn, DeadlineIo, Event, Handshake, Phase, Stall,
    MAX_EARLY_DATA_BYTES, MAX_HANDSHAKE_ROUNDS, MAX_REQS_PER_CONN, MIN_PROGRESS_BYTES,
    PROGRESS_TIMEOUT, SECOND,
};
use bare_server::redirects::Redirects;
use bare_server::response::ErrorPages;
use bare_server::serve::{
    handle_request, resolve, send_304, send_error, send_redirect, sendable_token, token_reply, Reply,
    Resolved,
};
use bare_server::vhosts::{
    check_root, content_refused, error_page_bytes, Root, Site, Vhosts, VhostsBuilder,
};

type File<'a> = (&'a str, &'a [u8]);

/// A table of sites with the content of each, the bodies of its snapshot and the
/// challenge tokens below its roots.
struct Fixture {
    builder: VhostsBuilder,
    caches: Vec<Arc<SiteCache>>,
    bodies: Vec<(String, Vec<u8>)>,
    tokens: Vec<(&'static str, Vec<u8>)>,
}

impl Fixture {
    fn vhosts(&self) -> &Vhosts {
        &self.builder.vhosts
    }

    fn site(&self, host: &str) -> &Site {
        &self.vhosts().sites[*self.vhosts().names.get(host).expect("host")]
    }

    fn cache(&self, host: &str) -> &SiteCache {
        &self.caches[*self.vhosts().names.get(host).expect("host")]
    }
}

/// Loads the files of one site, in order. `None` stands for a build that was
/// given up.
fn load(b: &mut CacheBuilder, files: &[File], bodies: &mut Vec<(String, Vec<u8>)>) -> Option<()> {
    for (path, data) in files {
        let (dirs, name) = path.rsplit_once('/').unwrap_or(("", path));
        let mut prefix = String::new();
        for dir in dirs.split('/').filter(|d| !d.is_empty()) {
            match b.visit(&prefix, dir, Kind::Dir, 0) {
                Visit::Descend(url) => prefix = url,
                _ => panic!("hidden directory in a fixture"),
            }
        }
        match b.visit(&prefix, name, Kind::File, data.len()) {
            Visit::Load(url) => {
                let cached = if b.policy.storage == Storage::Memory {
                    b.hold(&url, data)
                } else {
                    let plan = b.stage(&url, data);
                    bodies.push((plan.entry.identity.path.clone(), data.to_vec()));
                    if let Some(v) = &plan.entry.gzip {
                        bodies.push((v.path.clone(), plan.gzip.unwrap()));
                    }
                    if let Some(v) = &plan.entry.br {
                        bodies.push((v.path.clone(), plan.br.unwrap()));
                    }
                    Cached::Disk(plan.entry)
                };
                if !b.take_in(url, cached) {
                    return None;
                }
            }
            Visit::OverBudget(_) => return None,
            _ => {}
        }
    }
    Some(())
}

/// Builds a table from a configuration. Every root holds `files`.
fn build_vhosts(cfg: &Config, files: &[File]) -> Result<Fixture, String> {
    let mut f = Fixture {
        builder: VhostsBuilder::new(cfg),
        caches: Vec::new(),
        bodies: Vec::new(),
        tokens: Vec::new(),
    };
    for s in &cfg.sites {
        let policy = f.builder.open_site(cfg, s)?;
        let before = f.builder.total as usize;
        let mut b = CacheBuilder::new(before, &policy);
        if let Some(root) = &s.root {
            if load(&mut b, files, &mut f.bodies).is_none() {
                return Err(content_refused(s, root, before));
            }
        }
        let CacheBuilder { total, cache, .. } = b;
        f.builder.close_site(s, s.root.clone(), policy, total)?;
        f.caches.push(Arc::new(cache));
    }
    Ok(f)
}

const INDEX: &[File] = &[("index.html", b"x")];

fn css() -> String {
    "body { color: red; }\n".repeat(20)
}

fn cfg_of(sites: Vec<SiteConfig>) -> Config {
    Config {
        host: "127.0.0.1".into(),
        port: "443".into(),
        http_host: String::new(),
        http_port: "80".into(),
        headers: Default::default(),
        max_conns_per_ip: 64,
        max_response_secs: 0,
        storage: Storage::Memory,
        disk_cache: None,
        sites,
    }
}

fn vh_site_full(host: &str, root: Option<&str>) -> SiteConfig {
    SiteConfig {
        hosts: vec![host.into()],
        root: root.map(Into::into),
        cert: "c".into(),
        key: "k".into(),
        force_ssl: false,
        canonical_urls: false,
        redirects: Arc::new(Default::default()),
        tuning: Default::default(),
        headers: Default::default(),
    }
}

fn vh_site(host: &str, root: &str) -> SiteConfig {
    vh_site_full(host, Some(root))
}

/// The rule set that the `redirect` lines of a block give.
fn rules(lines: &str) -> Redirects {
    let text = format!(
        "listen = h:443\nsite a.com {{\n root = /w\n cert = /c\n key = /k\n{lines}\n}}\n"
    );
    let mut c = parse_config(&text).expect("rules parse");
    Arc::try_unwrap(c.sites.remove(0).redirects).ok().expect("sole owner")
}

fn content_of(s: SiteConfig, storage: Storage) -> Fixture {
    let style = css();
    let files: [File; 4] = [
        ("index.html", b"<h1>home</h1>"),
        ("about.html", b"<h1>about</h1>"),
        ("blog/index.html", b"<h1>blog</h1>"),
        // Compressible and comfortably over the floor.
        ("style.css", style.as_bytes()),
    ];
    let mut cfg = cfg_of(vec![s]);
    cfg.storage = storage;
    build_vhosts(&cfg, &files).expect("built")
}

fn fixture_full(host: &str, force_ssl: bool, tuning: Tuning, redirects: Redirects) -> Fixture {
    let mut s = vh_site(host, "/www");
    s.force_ssl = force_ssl;
    s.tuning = tuning;
    s.redirects = Arc::new(redirects);
    content_of(s, Storage::Memory)
}

/// A table with one content site.
fn fixture(host: &str) -> Fixture {
    fixture_with(host, false)
}

fn fixture_with(host: &str, force_ssl: bool) -> Fixture {
    fixture_tuned(host, force_ssl, Default::default())
}

fn fixture_tuned(host: &str, force_ssl: bool, tuning: Tuning) -> Fixture {
    fixture_full(host, force_ssl, tuning, Default::default())
}

fn fixture_redirects(host: &str, redirects: Redirects) -> Fixture {
    fixture_full(host, false, Default::default(), redirects)
}

fn fixture_canonical(host: &str, redirects: Redirects) -> Fixture {
    let mut s = vh_site(host, "/www");
    s.canonical_urls = true;
    s.redirects = Arc::new(redirects);
    content_of(s, Storage::Memory)
}

fn disk_fixture(host: &str) -> Fixture {
    content_of(vh_site(host, "/www"), Storage::Disk)
}

/// Adds a host without content of its own.
fn add_redirect_only(f: &mut Fixture, host: &str, redirects: Redirects) {
    let mut s = vh_site_full(host, None);
    s.force_ssl = true;
    s.redirects = Arc::new(redirects);
    let policy = f.builder.open_site(&cfg_of(vec![]), &s).unwrap();
    let total = f.builder.total as usize;
    f.builder.close_site(&s, None, policy, total).unwrap();
    f.caches.push(Arc::new(SiteCache::empty()));
}

/// Carries an answer out: whether the connection is kept, what is written, and in
/// how many writes.
fn carry_out(f: &Fixture, reply: Reply) -> (bool, Vec<u8>, usize) {
    match reply {
        Reply::Ready { page, keep_alive } => (keep_alive, page.to_vec(), 1),
        Reply::Built { bytes, keep_alive } => (keep_alive, bytes, 1),
        Reply::Split { head, body, keep_alive } => (keep_alive, [&head, body].concat(), 2),
        Reply::File { head, path, len, keep_alive, .. } => {
            let (_, body) = f.bodies.iter().find(|(p, _)| p == path).expect("a body in the snapshot");
            assert_eq!(body.len() as u64, len, "the declared length is the length of the file");
            (keep_alive, [&head, body.as_slice()].concat(), 2)
        }
        Reply::Token { site, token, keep_alive, is_head, .. } => {
            let found = f.tokens.iter().find(|(t, _)| *t == token).map(|(_, body)| body.clone());
            let body = found.filter(|b| sendable_token(true, 1, b.len() as u64));
            carry_out(f, token_reply(body, keep_alive, is_head, &f.vhosts().sites[site].policy))
        }
    }
}

fn answer(f: &Fixture, raw: &[u8], want_ka: bool, plain: bool, sni: Option<&str>) -> (bool, String, usize) {
    let reply = handle_request(raw, f.vhosts(), &f.caches, want_ka, plain, sni);
    let (ka, out, writes) = carry_out(f, reply);
    (ka, String::from_utf8_lossy(&out).into_owned(), writes)
}

fn run(f: &Fixture, raw: &str, want_ka: bool, redirect_https: bool) -> (bool, String) {
    let (ka, out, _) = answer(f, raw.as_bytes(), want_ka, redirect_https, None);
    (ka, out)
}

/// As `run`, but also reports how many writes the response took.
fn run_writes(f: &Fixture, raw: &str) -> (String, usize) {
    let (_, out, writes) = answer(f, raw.as_bytes(), true, false, None);
    (out, writes)
}

fn header(resp: &str, name: &str) -> Option<String> {
    resp.split("\r\n").find_map(|l| l.strip_prefix(name).map(|v| v.trim().to_string()))
}

/// Feeds a connection `input` in pieces and carries its answers out, until it is
/// to be closed.
fn serve_over(f: &Fixture, input: &[u8], piece: usize) -> String {
    let mut conn = Conn::new(Vec::new(), 60 * SECOND);
    let mut out = Vec::new();
    let mut left = input;
    let mut action = conn.serve_over(Event::Start, 0);
    loop {
        action = match action {
            Action::Close => break,
            Action::TooLarge => {
                out.extend_from_slice(f.vhosts().errors.headers_too_large.bytes(false, false));
                break;
            }
            Action::TimedOut => {
                out.extend_from_slice(f.vhosts().errors.request_timeout.bytes(false, false));
                break;
            }
            Action::Read if left.is_empty() => conn.serve_over(Event::Lost, 0),
            Action::Read => {
                let (now, later) = left.split_at(piece.min(left.len()));
                left = later;
                conn.serve_over(Event::Bytes(now), 0)
            }
            Action::Answer { end, want_ka } => {
                assert_eq!(conn.head().len(), end);
                let reply =
                    handle_request(conn.head(), f.vhosts(), &f.caches, want_ka, false, None);
                let (ka, bytes, _) = carry_out(f, reply);
                out.extend(bytes);
                conn.serve_over(Event::Answered(ka), 0)
            }
        };
    }
    String::from_utf8_lossy(&out).into_owned()
}

#[test]
fn get_index_returns_200_with_body_and_type() {
    let v = fixture("example.com");
    let (ka, r) = run(&v, "GET / HTTP/1.1\r\nHost: example.com\r\n\r\n", true, false);
    assert!(r.starts_with("HTTP/1.1 200 OK\r\n"), "{r}");
    assert_eq!(header(&r, "Content-Type:").as_deref(), Some("text/html; charset=utf-8"));
    assert!(r.ends_with("<h1>home</h1>"));
    assert!(ka, "HTTP/1.1 keeps alive by default");
}

#[test]
fn head_returns_headers_without_body() {
    let v = fixture("example.com");
    let (_ka, r) = run(&v, "HEAD / HTTP/1.1\r\nHost: example.com\r\n\r\n", true, false);
    assert!(r.starts_with("HTTP/1.1 200 OK\r\n"));
    assert!(r.contains("Content-Length: 13\r\n")); // length still advertised
    // Nothing follows the header terminator.
    assert_eq!(r.split("\r\n\r\n").nth(1), Some(""));
}

#[test]
fn missing_file_is_404() {
    let v = fixture("example.com");
    let (_ka, r) = run(&v, "GET /nope HTTP/1.1\r\nHost: example.com\r\n\r\n", true, false);
    assert!(r.starts_with("HTTP/1.1 404 Not Found\r\n"));
}

#[test]
fn an_error_response_is_one_write() {
    // Why the responses are precomputed. `rustls::Stream::write` runs
    // complete_io after every write, so a head-then-body error costs two
    // encrypt-and-socket round trips where a cache hit costs one.
    let v = fixture("example.com");
    for req in [
        "GET /nope HTTP/1.1\r\nHost: example.com\r\n\r\n",                     // 404
        "HEAD /nope HTTP/1.1\r\nHost: example.com\r\n\r\n",                    // 404, no body
        "GET /nope HTTP/1.1\r\nHost: example.com\r\nConnection: close\r\n\r\n", // 404, close
        "DELETE / HTTP/1.1\r\nHost: example.com\r\n\r\n",                      // 405
        "GET /a\u{01}b HTTP/1.1\r\nHost: example.com\r\n\r\n",                 // 400
        "GET / HTTP/1.1\r\nHost: other.com\r\n\r\n",                           // 404, no site
    ] {
        let (r, writes) = run_writes(&v, req);
        assert_eq!(writes, 1, "{req} took {writes} writes: {r}");
    }
}

#[test]
fn an_error_is_never_stored_by_a_cache() {
    // With no Cache-Control a 404 is heuristically cacheable, so a shared
    // cache could keep answering 404 for a URL the site later publishes.
    let v = fixture("example.com");
    let (_ka, r) = run(&v, "GET /nope HTTP/1.1\r\nHost: example.com\r\n\r\n", true, false);
    assert_eq!(header(&r, "Cache-Control:").as_deref(), Some("no-store"), "{r}");
}

#[test]
fn head_on_an_error_sends_the_header_alone() {
    let v = fixture("example.com");
    let (_k1, get) = run(&v, "GET /nope HTTP/1.1\r\nHost: example.com\r\n\r\n", true, false);
    let (_k2, head) = run(&v, "HEAD /nope HTTP/1.1\r\nHost: example.com\r\n\r\n", true, false);
    let (get_head, get_body) = get.split_once("\r\n\r\n").expect("header terminator");
    assert_eq!(head, format!("{get_head}\r\n\r\n"), "HEAD sends the GET header, nothing more");
    assert!(!get_body.is_empty(), "a GET error carries a body");
    // The real length stays advertised on a HEAD.
    assert_eq!(header(&head, "Content-Length:"), Some(get_body.len().to_string()));
}

#[test]
fn an_error_states_the_connection_it_leaves_behind() {
    let v = fixture("example.com");
    let (ka, r) = run(&v, "GET /nope HTTP/1.1\r\nHost: example.com\r\n\r\n", true, false);
    assert!(ka, "a 404 does not have to close the connection");
    assert_eq!(header(&r, "Connection:").as_deref(), Some("keep-alive"), "{r}");
    let raw = "GET /nope HTTP/1.1\r\nHost: example.com\r\nConnection: close\r\n\r\n";
    let (ka, r) = run(&v, raw, true, false);
    assert!(!ka);
    assert_eq!(header(&r, "Connection:").as_deref(), Some("close"), "{r}");
}

#[test]
fn unknown_or_absent_host_is_404() {
    let v = fixture("example.com");
    let (_k1, r1) = run(&v, "GET / HTTP/1.1\r\nHost: other.com\r\n\r\n", true, false);
    assert!(r1.starts_with("HTTP/1.1 404"));
    let (_k2, r2) = run(&v, "GET / HTTP/1.1\r\n\r\n", true, false); // no Host
    assert!(r2.starts_with("HTTP/1.1 404"));
}

#[test]
fn non_get_head_is_405() {
    let v = fixture("example.com");
    let (_ka, r) = run(&v, "DELETE / HTTP/1.1\r\nHost: example.com\r\n\r\n", true, false);
    assert!(r.starts_with("HTTP/1.1 405 Method Not Allowed\r\n"));
    // The refusal has to tell the client what it may send instead.
    assert_eq!(header(&r, "Allow:").as_deref(), Some("GET, HEAD"));
}

#[test]
fn control_byte_in_target_is_400() {
    let v = fixture("example.com");
    let (ka, r) = run(&v, "GET /a\u{01}b HTTP/1.1\r\nHost: example.com\r\n\r\n", true, false);
    assert!(r.starts_with("HTTP/1.1 400 Bad Request\r\n"));
    assert!(!ka, "a malformed request closes the connection");
}

#[test]
fn absolute_form_target_is_400() {
    let v = fixture("example.com");
    let (_ka, r) = run(&v, "GET http://x/ HTTP/1.1\r\nHost: example.com\r\n\r\n", true, false);
    assert!(r.starts_with("HTTP/1.1 400"));
}

#[test]
fn a_declared_body_is_refused_but_content_length_zero_is_fine() {
    let v = fixture("example.com");
    let (ka, r) = run(
        &v,
        "GET / HTTP/1.1\r\nHost: example.com\r\nContent-Length: 5\r\n\r\n",
        true,
        false,
    );
    assert!(r.starts_with("HTTP/1.1 400"), "CL>0 desync risk -> 400");
    assert!(!ka, "must close so the undrained body is discarded");

    let (_ka2, r2) = run(
        &v,
        "GET / HTTP/1.1\r\nHost: example.com\r\nContent-Length: 0\r\n\r\n",
        true,
        false,
    );
    assert!(r2.starts_with("HTTP/1.1 200"), "CL:0 is a real bodyless request");
}

#[test]
fn transfer_encoding_is_refused() {
    let v = fixture("example.com");
    let (_ka, r) = run(
        &v,
        "GET / HTTP/1.1\r\nHost: example.com\r\nTransfer-Encoding: chunked\r\n\r\n",
        true,
        false,
    );
    assert!(r.starts_with("HTTP/1.1 400"));
}

#[test]
fn content_negotiation_selects_encoding() {
    let v = fixture("example.com");
    let br = run(&v, "GET /style.css HTTP/1.1\r\nHost: example.com\r\nAccept-Encoding: br\r\n\r\n", true, false).1;
    assert_eq!(header(&br, "Content-Encoding:").as_deref(), Some("br"));
    assert_eq!(header(&br, "Vary:").as_deref(), Some("Accept-Encoding"));

    let gz = run(&v, "GET /style.css HTTP/1.1\r\nHost: example.com\r\nAccept-Encoding: gzip\r\n\r\n", true, false).1;
    assert_eq!(header(&gz, "Content-Encoding:").as_deref(), Some("gzip"));

    let id = run(&v, "GET /style.css HTTP/1.1\r\nHost: example.com\r\n\r\n", true, false).1;
    assert!(header(&id, "Content-Encoding:").is_none(), "no AE header -> identity");

    let refused = run(&v, "GET /style.css HTTP/1.1\r\nHost: example.com\r\nAccept-Encoding: br;q=0, gzip\r\n\r\n", true, false).1;
    assert_eq!(header(&refused, "Content-Encoding:").as_deref(), Some("gzip"));
}

#[test]
fn conditional_get_returns_304() {
    let v = fixture("example.com");
    let r1 = run(&v, "GET /style.css HTTP/1.1\r\nHost: example.com\r\n\r\n", true, false).1;
    let etag = header(&r1, "ETag:").unwrap();
    let raw = format!("GET /style.css HTTP/1.1\r\nHost: example.com\r\nIf-None-Match: {etag}\r\n\r\n");
    let r2 = run(&v, &raw, true, false).1;
    assert!(r2.starts_with("HTTP/1.1 304 Not Modified\r\n"), "{r2}");
    assert!(header(&r2, "Cache-Control:").is_some(), "304 must carry Cache-Control");
    assert_eq!(r2.split("\r\n\r\n").nth(1), Some("")); // no body
}

#[test]
fn clean_url_directory_redirects_to_trailing_slash() {
    let v = fixture("example.com");
    let (_ka, r) = run(&v, "GET /blog HTTP/1.1\r\nHost: example.com\r\n\r\n", true, false);
    assert!(r.starts_with("HTTP/1.1 301 Moved Permanently\r\n"));
    assert_eq!(header(&r, "Location:").as_deref(), Some("https://example.com/blog/"));
}

#[test]
fn plain_listener_serves_content_when_force_ssl_is_off() {
    // Default (no force_ssl): :80 serves the same content as :443 rather
    // than upgrading. `redirect_https = true` simulates the :80 listener.
    let v = fixture_with("example.com", false);
    let (_ka, r) = run(&v, "GET /style.css HTTP/1.1\r\nHost: example.com\r\n\r\n", true, true);
    assert!(r.starts_with("HTTP/1.1 200"), "expected content over plain HTTP: {r}");
    assert_eq!(header(&r, "Content-Type:").as_deref(), Some("text/css; charset=utf-8"));
}

#[test]
fn plain_listener_redirects_when_force_ssl_is_on_but_keeps_acme_plain() {
    let v = fixture_with("example.com", true);
    let (_k1, r1) = run(&v, "GET /style.css HTTP/1.1\r\nHost: example.com\r\n\r\n", true, true);
    assert!(r1.starts_with("HTTP/1.1 301"), "{r1}");
    assert_eq!(header(&r1, "Location:").as_deref(), Some("https://example.com/style.css"));

    // Even with force_ssl the ACME challenge must stay answerable on :80,
    // or http-01 renewal breaks. A 404 here (no token on disk) proves it
    // reached the ACME handler instead of being bounced to HTTPS.
    let (_k2, r2) = run(&v, "GET /.well-known/acme-challenge/x HTTP/1.1\r\nHost: example.com\r\n\r\n", true, true);
    assert!(r2.starts_with("HTTP/1.1 404"), "ACME path must not 301: {r2}");
}

#[test]
fn force_ssl_does_not_affect_the_tls_listener() {
    // On :443 (redirect_https = false) a force_ssl site serves normally —
    // the flag must not cause a redirect loop.
    let v = fixture_with("example.com", true);
    let (_ka, r) = run(&v, "GET / HTTP/1.1\r\nHost: example.com\r\n\r\n", true, false);
    assert!(r.starts_with("HTTP/1.1 200"), "force_ssl must not loop on HTTPS: {r}");
}

#[test]
fn dir_index_redirect_preserves_the_plain_scheme_for_allow_http() {
    // On :80 an allow_http site's "/blog" -> "/blog/" canonicalisation must
    // stay on http://: silently upgrading it to https defeats the
    // opt-out. Over TLS the same request redirects to https.
    let v = fixture_with("example.com", false);
    let (_k1, http) = run(&v, "GET /blog HTTP/1.1\r\nHost: example.com\r\n\r\n", true, true);
    assert!(http.starts_with("HTTP/1.1 301"), "{http}");
    assert_eq!(header(&http, "Location:").as_deref(), Some("http://example.com/blog/"));
    let (_k2, https) = run(&v, "GET /blog HTTP/1.1\r\nHost: example.com\r\n\r\n", true, false);
    assert_eq!(header(&https, "Location:").as_deref(), Some("https://example.com/blog/"));
}

#[test]
fn disk_mode_streams_identity_and_serves_sidecars() {
    let css = "body { color: red; }\n".repeat(20);
    let v = disk_fixture("example.com");

    // No Accept-Encoding: identity body streamed verbatim from disk.
    let (_ka, r) = run(&v, "GET /style.css HTTP/1.1\r\nHost: example.com\r\n\r\n", true, false);
    assert!(r.starts_with("HTTP/1.1 200 OK\r\n"), "{r}");
    assert!(r.contains(&format!("Content-Length: {}\r\n", css.len())), "{r}");
    assert!(!r.contains("Content-Encoding"), "identity carries no encoding: {r}");
    assert!(r.ends_with(&css), "disk identity body must match the source file");

    // Accept-Encoding: gzip -> the precompressed .gz sidecar.
    let (_k2, rg) = run(
        &v,
        "GET /style.css HTTP/1.1\r\nHost: example.com\r\nAccept-Encoding: gzip\r\n\r\n",
        true,
        false,
    );
    assert_eq!(header(&rg, "Content-Encoding:").as_deref(), Some("gzip"));
    assert_eq!(header(&rg, "Vary:").as_deref(), Some("Accept-Encoding"));

    // HEAD: header (with the real Content-Length) but no streamed body.
    let (_k3, rh) = run(&v, "HEAD /style.css HTTP/1.1\r\nHost: example.com\r\n\r\n", true, false);
    assert!(rh.contains(&format!("Content-Length: {}\r\n", css.len())));
    assert_eq!(rh.split("\r\n\r\n").nth(1), Some(""), "HEAD must carry no body");
}

#[test]
fn disk_mode_conditional_get_and_close() {
    let v = disk_fixture("example.com");
    // Grab the identity ETag, then revalidate -> 304 with no body.
    let (_ka, first) = run(&v, "GET /style.css HTTP/1.1\r\nHost: example.com\r\n\r\n", true, false);
    let etag = header(&first, "ETag:").expect("etag present");
    let req = format!("GET /style.css HTTP/1.1\r\nHost: example.com\r\nIf-None-Match: {etag}\r\n\r\n");
    let (_k2, r304) = run(&v, &req, true, false);
    assert!(r304.starts_with("HTTP/1.1 304"), "{r304}");
    assert_eq!(r304.split("\r\n\r\n").nth(1), Some(""));
    // Connection: close still streams the body, with the header flipped.
    let (ka, rc) = run(&v, "GET /style.css HTTP/1.1\r\nHost: example.com\r\nConnection: close\r\n\r\n", false, false);
    assert!(!ka);
    assert!(rc.contains("Connection: close\r\n"), "{rc}");
    assert!(rc.ends_with(&"body { color: red; }\n".repeat(20)));
}

#[test]
fn closing_changes_the_connection_field_alone() {
    for v in [fixture("example.com"), disk_fixture("example.com")] {
        for coding in ["identity", "gzip", "br"] {
            let req = format!(
                "GET /style.css HTTP/1.1\r\nHost: example.com\r\nAccept-Encoding: {coding}\r\n\r\n"
            );
            let (kept, stays) = run(&v, &req, true, false);
            let (gone, closes) = run(&v, &req, false, false);
            assert!(kept && !gone);
            assert_ne!(stays, closes);
            assert_eq!(
                stays.replacen("Connection: keep-alive\r\n", "Connection: close\r\n", 1),
                closes
            );
        }
    }
}

#[test]
fn a_head_is_the_get_cut_at_its_blank_line() {
    let mut plain = fixture_redirects("example.com", rules("redirect /old -> /new#top"));
    plain.tokens.push(("tok", b"secret".to_vec()));
    let tag = header(&run(&plain, "GET / HTTP/1.1\r\nHost: example.com\r\n\r\n", true, false).1, "ETag:");
    let known = format!("If-None-Match: {}\r\n", tag.unwrap());
    for f in [plain, disk_fixture("example.com"), fixture_canonical("example.com", Default::default())] {
        for (target, fields) in [
            ("/", ""),
            ("/", known.as_str()),
            ("/style.css", "Accept-Encoding: br\r\n"),
            ("/style.css", "Connection: close\r\n"),
            ("/blog", ""),
            ("/old?x=1", ""),
            ("/about.html", ""),
            ("/nope", ""),
            ("nope", ""),
            ("/%zz", ""),
            ("/.well-known/acme-challenge/tok", ""),
            ("/.well-known/acme-challenge/gone", ""),
            ("/", "Content-Length: 3\r\n"),
            ("/", "Broken\r\n"),
        ] {
            for want_ka in [true, false] {
                let rest = format!("{target} HTTP/1.1\r\nHost: example.com\r\n{fields}\r\n");
                let (kept, get) = run(&f, &format!("GET {rest}"), want_ka, false);
                let (same, head) = run(&f, &format!("HEAD {rest}"), want_ka, false);
                let end = get.find("\r\n\r\n").unwrap() + 4;
                assert_eq!(head, get[..end], "{target} {fields}");
                assert_eq!(kept, same, "{target} {fields}");
            }
        }
    }
}

#[test]
fn a_build_serves_the_configuration() {
    let mut first = vh_site_full("a.example", Some("/www"));
    first.hosts.push("b.example".into());
    let second = vh_site_full("c.example", None);
    let mut third = vh_site_full("d.example", Some("/www"));
    third.canonical_urls = true;
    let cfg = cfg_of(vec![first, second, third]);
    let f = build_vhosts(&cfg, INDEX).unwrap();
    let v = f.vhosts();
    let hosts = ["a.example", "b.example", "c.example", "d.example"];
    assert_eq!(hosts.map(|h| v.names.get(h).copied()), [Some(0), Some(0), Some(1), Some(2)]);
    assert_eq!(v.names.len(), 4);
    assert_eq!(v.sites.len(), 3);
    for (site, s) in v.sites.iter().zip(&cfg.sites) {
        assert_eq!(site.hosts, s.hosts);
        assert_eq!(site.root, s.root);
        assert_eq!(site.canonical_urls, s.canonical_urls);
    }
    let budget = cfg.sites[2].tuning.max_total_bytes;
    assert!(error_page_bytes(v) <= budget);
    assert!(error_page_bytes(v) as u128 <= f.builder.total);
}

#[test]
fn both_storages_send_the_same_bytes() {
    let (memory, disk) = (fixture("example.com"), disk_fixture("example.com"));
    for method in ["GET", "HEAD"] {
        for coding in ["identity", "gzip", "br"] {
            for want_ka in [true, false] {
                let req = format!(
                    "{method} /style.css HTTP/1.1\r\nHost: example.com\r\nAccept-Encoding: {coding}\r\n\r\n"
                );
                assert_eq!(run(&memory, &req, want_ka, false), run(&disk, &req, want_ka, false));
            }
        }
    }
}

#[test]
fn however_the_reads_cut_them_requests_are_answered_in_turn() {
    let f = fixture("example.com");
    let heads = [
        "GET / HTTP/1.1\r\nHost: example.com\r\n\r\n",
        "HEAD /about HTTP/1.1\r\nHost: example.com\r\n\r\n",
        "GET /nope HTTP/1.1\r\nHost: example.com\r\n\r\n",
        "GET /blog/ HTTP/1.1\r\nHost: example.com\r\nConnection: close\r\n\r\n",
        "GET / HTTP/1.1\r\nHost: example.com\r\n\r\n",
    ];
    let mut expected = String::new();
    // The fourth closes the connection, so that the fifth is not answered.
    for head in &heads[..4] {
        expected.push_str(&run(&f, head, true, false).1);
    }
    let input = heads.concat();
    for piece in [1, 2, 3, 5, 7, 11, 64, 100, 1000] {
        assert_eq!(serve_over(&f, input.as_bytes(), piece), expected, "in pieces of {piece}");
    }
    assert_eq!(serve_over(&f, b"", 1), "");
}

#[test]
fn the_query_goes_before_the_fragment() {
    for (target, location) in [
        ("/new#top", "https://example.com/new?x=1#top"),
        ("/new", "https://example.com/new?x=1"),
        ("/new?y=2#top", "https://example.com/new?y=2#top"),
        ("/new#a?b", "https://example.com/new?x=1#a?b"),
        ("https://other.org/#top", "https://other.org/?x=1#top"),
    ] {
        let v = fixture_redirects("example.com", rules(&format!("redirect /old -> {target}")));
        let r = run(&v, "GET /old?x=1 HTTP/1.1\r\nHost: example.com\r\n\r\n", true, false).1;
        assert_eq!(header(&r, "Location:").as_deref(), Some(location));
    }
}

#[test]
fn redirect_only_vhost_301s_to_canonical_host() {
    let mut v = fixture("example.com");
    add_redirect_only(&mut v, "www.example.com", rules("redirect * -> https://example.com$0"));
    let (_ka, r) = run(&v, "GET /page?x=1 HTTP/1.1\r\nHost: www.example.com\r\n\r\n", true, false);
    assert!(r.starts_with("HTTP/1.1 301"));
    // Location is built from the config target, never the request Host.
    assert_eq!(header(&r, "Location:").as_deref(), Some("https://example.com/page?x=1"));
}

#[test]
fn a_redirect_only_vhost_answers_in_one_hop_on_the_plain_listener() {
    // The rule runs before the HTTP -> HTTPS upgrade, so http://www lands on
    // https://apex directly rather than via https://www.
    let mut v = fixture("example.com");
    add_redirect_only(&mut v, "www.example.com", rules("redirect * -> https://example.com$0"));
    let (_ka, r) = run(&v, "GET /p HTTP/1.1\r\nHost: www.example.com\r\n\r\n", true, true);
    assert_eq!(header(&r, "Location:").as_deref(), Some("https://example.com/p"));
}

#[test]
fn a_redirect_only_vhost_404s_a_path_no_rule_matches() {
    let mut v = fixture("example.com");
    add_redirect_only(&mut v, "www.example.com", rules("redirect /only -> /here"));
    let r = run(&v, "GET /other HTTP/1.1\r\nHost: www.example.com\r\n\r\n", true, false).1;
    assert!(r.starts_with("HTTP/1.1 404"), "{r}");
}

#[test]
fn canonical_urls_301s_the_html_forms() {
    let v = fixture_canonical("example.com", Default::default());
    for (req, want) in [
        ("/index.html", "https://example.com/"),
        ("/about.html", "https://example.com/about/"),
        ("/about/index.html", "https://example.com/about/"),
        ("/blog/post.html", "https://example.com/blog/post/"),
    ] {
        let raw = format!("GET {req} HTTP/1.1\r\nHost: example.com\r\n\r\n");
        let r = run(&v, &raw, true, false).1;
        assert!(r.starts_with("HTTP/1.1 301 Moved Permanently\r\n"), "{req}: {r}");
        assert_eq!(header(&r, "Location:").as_deref(), Some(want), "{req}");
    }
}

#[test]
fn canonical_urls_folds_percent_encoded_spellings_too() {
    // A percent-encoded unreserved character is the same
    // URI as its decoded form. Canonicalising the raw path let "/about%2Ehtml"
    // skip the fold entirely while still being served, and folded
    // "/ab%6Fut.html" onto a Location that was itself non-canonical — a
    // duplicate-content feature emitting duplicate URLs.
    let v = fixture_canonical("example.com", Default::default());
    for req in ["/about.html", "/about%2Ehtml", "/ab%6Fut.html", "/ab%6Fut%2Ehtml"] {
        let raw = format!("GET {req} HTTP/1.1\r\nHost: example.com\r\n\r\n");
        let r = run(&v, &raw, true, false).1;
        assert!(r.starts_with("HTTP/1.1 301 Moved Permanently\r\n"), "{req}: {r}");
        assert_eq!(
            header(&r, "Location:").as_deref(),
            Some("https://example.com/about/"),
            "{req} must fold onto the one canonical spelling"
        );
    }
}

#[test]
fn a_dir_index_redirect_lands_on_one_canonical_spelling() {
    let v = fixture("example.com");
    for req in ["/about", "/ab%6Fut"] {
        let raw = format!("GET {req} HTTP/1.1\r\nHost: example.com\r\n\r\n");
        let r = run(&v, &raw, true, false).1;
        // `/about` is a page in the fixture, so it serves; the point here is
        // that both spellings agree on what they resolve to.
        assert!(!r.starts_with("HTTP/1.1 404"), "{req}: {r}");
    }
}

#[test]
fn canonical_urls_keeps_the_query_string() {
    let v = fixture_canonical("example.com", Default::default());
    let r = run(&v, "GET /about.html?ref=x HTTP/1.1\r\nHost: example.com\r\n\r\n", true, false).1;
    assert_eq!(header(&r, "Location:").as_deref(), Some("https://example.com/about/?ref=x"));
}

#[test]
fn an_explicit_rule_beats_canonicalisation() {
    // A page that MOVED must reach its new home in one hop, not be folded
    // onto its own old directory first.
    let v = fixture_canonical(
        "example.com",
        rules("redirect /services/old-name.html -> /services/new-name/"),
    );
    let r = run(&v, "GET /services/old-name.html HTTP/1.1\r\nHost: example.com\r\n\r\n", true, false).1;
    assert_eq!(
        header(&r, "Location:").as_deref(),
        Some("https://example.com/services/new-name/")
    );
}

#[test]
fn canonical_urls_leaves_the_acme_challenge_alone() {
    // Not that a token ends in .html, but the exemption must not depend on
    // that: it is the same guard the rules use.
    let mut v = fixture_canonical("example.com", Default::default());
    v.tokens.push(("tok", b"key-auth".to_vec()));
    let r = run(
        &v,
        "GET /.well-known/acme-challenge/tok HTTP/1.1\r\nHost: example.com\r\n\r\n",
        true,
        true,
    )
    .1;
    assert!(r.starts_with("HTTP/1.1 200"), "{r}");
}

#[test]
fn canonical_urls_is_off_by_default() {
    // The flag changes what a URL does, so a site that says nothing keeps
    // serving what it served.
    let v = fixture("example.com");
    let r = run(&v, "GET /about.html HTTP/1.1\r\nHost: example.com\r\n\r\n", true, false).1;
    assert!(!r.starts_with("HTTP/1.1 301"), "{r}");
}

#[test]
fn a_rule_beats_the_content_at_the_same_path() {
    // /about.html exists in the fixture; the rule must win.
    let v = fixture_redirects("example.com", rules("redirect /about.html -> /moved"));
    let r = run(&v, "GET /about.html HTTP/1.1\r\nHost: example.com\r\n\r\n", true, false).1;
    assert!(r.starts_with("HTTP/1.1 301"), "{r}");
    assert_eq!(header(&r, "Location:").as_deref(), Some("https://example.com/moved"));
}

#[test]
fn a_bare_path_target_gets_this_hosts_scheme_and_authority() {
    let v = fixture_redirects("example.com", rules("redirect /old -> /new"));
    let r = run(&v, "GET /old HTTP/1.1\r\nHost: example.com\r\n\r\n", true, false).1;
    assert_eq!(header(&r, "Location:").as_deref(), Some("https://example.com/new"));
    // On the plain listener a site that serves HTTP stays on http://.
    let r = run(&v, "GET /old HTTP/1.1\r\nHost: example.com\r\n\r\n", true, true).1;
    assert_eq!(header(&r, "Location:").as_deref(), Some("http://example.com/new"));
}

#[test]
fn an_absolute_target_is_emitted_verbatim() {
    let v = fixture_redirects("example.com", rules("redirect /gone -> https://other.test/x"));
    let r = run(&v, "GET /gone HTTP/1.1\r\nHost: example.com\r\n\r\n", true, false).1;
    assert_eq!(header(&r, "Location:").as_deref(), Some("https://other.test/x"));
}

#[test]
fn a_prefix_rule_carries_the_remainder_over() {
    let v = fixture_redirects("example.com", rules("redirect /docs/* -> /help/$1"));
    let r = run(&v, "GET /docs/a/b HTTP/1.1\r\nHost: example.com\r\n\r\n", true, false).1;
    assert_eq!(header(&r, "Location:").as_deref(), Some("https://example.com/help/a/b"));
}

#[test]
fn the_query_string_survives_a_redirect() {
    let v = fixture_redirects("example.com", rules("redirect /old -> /new"));
    let r = run(&v, "GET /old?a=1&b=2 HTTP/1.1\r\nHost: example.com\r\n\r\n", true, false).1;
    assert_eq!(header(&r, "Location:").as_deref(), Some("https://example.com/new?a=1&b=2"));
}

#[test]
fn a_target_with_its_own_query_is_not_given_a_second_one() {
    // Two '?' would make the Location unparseable, so the rule's own query
    // wins and the request's is dropped.
    let v = fixture_redirects("example.com", rules("redirect /old -> /new?kept=1"));
    let r = run(&v, "GET /old?a=1 HTTP/1.1\r\nHost: example.com\r\n\r\n", true, false).1;
    assert_eq!(header(&r, "Location:").as_deref(), Some("https://example.com/new?kept=1"));
}

#[test]
fn rules_match_the_raw_percent_encoded_path() {
    // The rule is written as the client sends it; a decoded form does not
    // match, which keeps matching free of double-decoding ambiguity.
    let v = fixture_redirects("example.com", rules("redirect /a%20b -> /moved"));
    let hit = run(&v, "GET /a%20b HTTP/1.1\r\nHost: example.com\r\n\r\n", true, false).1;
    assert!(hit.starts_with("HTTP/1.1 301"), "{hit}");
    let miss = run(&v, "GET /a+b HTTP/1.1\r\nHost: example.com\r\n\r\n", true, false).1;
    assert!(!miss.starts_with("HTTP/1.1 301"), "{miss}");
}

#[test]
fn a_path_no_rule_matches_is_served_normally() {
    let v = fixture_redirects("example.com", rules("redirect /old -> /new"));
    let r = run(&v, "GET / HTTP/1.1\r\nHost: example.com\r\n\r\n", true, false).1;
    assert!(r.starts_with("HTTP/1.1 200"), "{r}");
}

#[test]
fn the_acme_prefix_is_exempt_from_a_catch_all_rule() {
    // Otherwise adding `redirect * -> ...` to a site would silently break its
    // certificate renewal.
    let mut v = fixture_redirects("example.com", rules("redirect * -> https://other.test$0"));
    v.tokens.push(("tok", b"key-auth".to_vec()));
    let r = run(
        &v,
        "GET /.well-known/acme-challenge/tok HTTP/1.1\r\nHost: example.com\r\n\r\n",
        true,
        true,
    )
    .1;
    assert!(r.starts_with("HTTP/1.1 200"), "{r}");
    assert!(r.ends_with("key-auth"), "{r}");
}

#[test]
fn every_redirect_this_server_emits_is_a_301() {
    // One emitter, one status — the rule path, the HTTP -> HTTPS upgrade and
    // the trailing-slash canonicalisation must not drift apart.
    let v = fixture_redirects("example.com", rules("redirect /old -> /new"));
    for (raw, plain) in [
        ("GET /old HTTP/1.1\r\nHost: example.com\r\n\r\n", false), // rule
        ("GET /blog HTTP/1.1\r\nHost: example.com\r\n\r\n", false), // dir index
    ] {
        let r = run(&v, raw, true, plain).1;
        assert!(r.starts_with("HTTP/1.1 301 Moved Permanently\r\n"), "{r}");
    }
    // ...and the force_ssl upgrade, which needs the flag on.
    let v2 = fixture_with("example.com", true);
    let r = run(&v2, "GET / HTTP/1.1\r\nHost: example.com\r\n\r\n", true, true).1;
    assert!(r.starts_with("HTTP/1.1 301 Moved Permanently\r\n"), "{r}");
}

#[test]
fn percent_encoded_path_resolves() {
    let v = fixture("example.com");
    let (_ka, r) = run(&v, "GET /%69ndex.html HTTP/1.1\r\nHost: example.com\r\n\r\n", true, false);
    assert!(r.starts_with("HTTP/1.1 200"), "{r}");
}

#[test]
fn connection_header_controls_keep_alive() {
    let v = fixture("example.com");
    let close = run(&v, "GET / HTTP/1.1\r\nHost: example.com\r\nConnection: close\r\n\r\n", true, false);
    assert!(!close.0);
    assert_eq!(header(&close.1, "Connection:").as_deref(), Some("close"));
    let ka = run(&v, "GET / HTTP/1.1\r\nHost: example.com\r\n\r\n", true, false);
    assert!(ka.0);
    let http10 = run(&v, "GET / HTTP/1.0\r\nHost: example.com\r\n\r\n", true, false);
    assert!(!http10.0, "HTTP/1.0 defaults to close");
    let forced = run(&v, "GET / HTTP/1.1\r\nHost: example.com\r\n\r\n", false, false);
    assert!(!forced.0, "want_ka=false forces close (keep-alive cap reached)");
}

#[test]
fn acme_token_is_served_from_disk() {
    let mut v = fixture("example.com");
    v.tokens.push(("tok-123", b"KEYAUTH".to_vec()));
    let (_ka, r) = run(&v, "GET /.well-known/acme-challenge/tok-123 HTTP/1.1\r\nHost: example.com\r\n\r\n", true, false);
    assert!(r.starts_with("HTTP/1.1 200 OK\r\n"), "{r}");
    assert_eq!(header(&r, "Cache-Control:").as_deref(), Some("no-store"));
    assert!(r.ends_with("KEYAUTH"));

    let (_ka2, missing) = run(&v, "GET /.well-known/acme-challenge/absent HTTP/1.1\r\nHost: example.com\r\n\r\n", true, false);
    assert!(missing.starts_with("HTTP/1.1 404"));
}

#[test]
fn overlong_path_is_400() {
    let v = fixture("example.com");
    let long = format!("/{}", "a".repeat(1100)); // >= MAX_PATH_LEN (1024)
    let raw = format!("GET {long} HTTP/1.1\r\nHost: example.com\r\n\r\n");
    assert!(run(&v, &raw, true, false).1.starts_with("HTTP/1.1 400"));
}

#[test]
fn malformed_request_line_is_400() {
    let v = fixture("example.com");
    // Two tokens only: no HTTP version.
    assert!(run(&v, "GET /\r\nHost: example.com\r\n\r\n", true, false).1.starts_with("HTTP/1.1 400"));
}

#[test]
fn head_on_an_error_has_no_body() {
    let v = fixture("example.com");
    let r = run(&v, "HEAD /missing HTTP/1.1\r\nHost: example.com\r\n\r\n", true, false).1;
    assert!(r.starts_with("HTTP/1.1 404"));
    assert_eq!(r.split("\r\n\r\n").nth(1), Some(""), "HEAD error must carry no body");
}

#[test]
fn host_header_with_port_still_matches_the_site() {
    let v = fixture("example.com");
    let r = run(&v, "GET / HTTP/1.1\r\nHost: example.com:8443\r\n\r\n", true, false).1;
    assert!(r.starts_with("HTTP/1.1 200"), "{r}");
}

#[test]
fn conditional_get_preserves_the_negotiated_encoding() {
    let v = fixture("example.com");
    let first = run(&v, "GET /style.css HTTP/1.1\r\nHost: example.com\r\nAccept-Encoding: br\r\n\r\n", true, false).1;
    assert_eq!(header(&first, "Content-Encoding:").as_deref(), Some("br"));
    let etag = header(&first, "ETag:").unwrap(); // the brotli variant's ETag
    let raw = format!("GET /style.css HTTP/1.1\r\nHost: example.com\r\nAccept-Encoding: br\r\nIf-None-Match: {etag}\r\n\r\n");
    let r = run(&v, &raw, true, false).1;
    assert!(r.starts_with("HTTP/1.1 304"), "{r}");
    // The 304 must echo the encoding and Vary so a cache keeps the br body usable.
    assert_eq!(header(&r, "Content-Encoding:").as_deref(), Some("br"));
    assert_eq!(header(&r, "Vary:").as_deref(), Some("Accept-Encoding"));
}

#[test]
fn acme_rejects_malformed_oversized_and_missing_tokens() {
    let mut v = fixture("example.com");
    // A '.' is outside the token alphabet.
    assert!(run(&v, "GET /.well-known/acme-challenge/a.b HTTP/1.1\r\nHost: example.com\r\n\r\n", true, false).1.starts_with("HTTP/1.1 404"));
    // Over the 128-char token-name limit.
    let long = "a".repeat(130);
    let raw = format!("GET /.well-known/acme-challenge/{long} HTTP/1.1\r\nHost: example.com\r\n\r\n");
    assert!(run(&v, &raw, true, false).1.starts_with("HTTP/1.1 404"));
    // A well-formed token whose file exceeds the byte cap is refused.
    v.tokens.push(("big", vec![b'x'; 5000])); // > ACME_TOKEN_MAX_BYTES (4096)
    assert!(run(&v, "GET /.well-known/acme-challenge/big HTTP/1.1\r\nHost: example.com\r\n\r\n", true, false).1.starts_with("HTTP/1.1 404"));
}

#[test]
fn conditional_get_echoes_the_configured_cache_control() {
    // The 304 repeats the entry's Cache-Control, with the configured max-age.
    let t = Tuning { cache_max_age: 4242, ..Default::default() };
    let v = fixture_tuned("example.com", false, t);
    let first = run(&v, "GET /style.css HTTP/1.1\r\nHost: example.com\r\n\r\n", true, false).1;
    assert_eq!(
        header(&first, "Cache-Control:").as_deref(),
        Some("public, max-age=4242, must-revalidate")
    );
    let etag = header(&first, "ETag:").unwrap();
    let raw = format!("GET /style.css HTTP/1.1\r\nHost: example.com\r\nIf-None-Match: {etag}\r\n\r\n");
    let r = run(&v, &raw, true, false).1;
    assert!(r.starts_with("HTTP/1.1 304"), "{r}");
    assert_eq!(
        header(&r, "Cache-Control:").as_deref(),
        Some("public, max-age=4242, must-revalidate"),
        "a 304 must repeat the configured Cache-Control"
    );
}

#[test]
fn force_ssl_site_still_redirects_head_without_a_body() {
    let v = fixture_with("example.com", true);
    let (_ka, r) = run(&v, "HEAD / HTTP/1.1\r\nHost: example.com\r\n\r\n", true, true);
    assert!(r.starts_with("HTTP/1.1 301"), "{r}");
    assert_eq!(r.split("\r\n\r\n").nth(1), Some(""));
}

#[test]
fn non_utf8_head_is_400() {
    let v = fixture("example.com");
    let (ka, r, _) = answer(&v, &[0xff, 0xfe, b' '], true, false, None);
    assert!(r.starts_with("HTTP/1.1 400"));
    assert!(!ka);
}

#[test]
fn a_host_that_disagrees_with_sni_is_refused() {
    let v = fixture("example.com");
    let raw = b"GET / HTTP/1.1\r\nHost: example.com\r\n\r\n";
    // Matching SNI: served normally.
    let ok = answer(&v, raw, true, false, Some("example.com")).1;
    assert!(ok.starts_with("HTTP/1.1 200 OK"), "{ok}");
    // A connection established for another name must not be usable to fetch
    // this host's content under that name's certificate and header policy.
    let bad = answer(&v, raw, true, false, Some("other.example")).1;
    assert!(bad.starts_with("HTTP/1.1 404"), "{bad}");
    // The plain listener has no SNI, so nothing to bind against.
    let plain = answer(&v, raw, true, false, None).1;
    assert!(plain.starts_with("HTTP/1.1 200 OK"), "{plain}");
}

#[test]
fn resolve_direct_clean_and_dirindex() {
    let files: [File; 3] =
        [("index.html", b"home"), ("about.html", b"about"), ("blog/index.html", b"blog")];
    let f = build_vhosts(&cfg_of(vec![vh_site("a", "/w")]), &files).unwrap();
    let cache = f.cache("a");
    assert!(matches!(resolve(cache, "/about.html"), Some(Resolved::Entry(_))));
    assert!(matches!(resolve(cache, "/about"), Some(Resolved::Entry(_)))); // clean URL
    assert!(matches!(resolve(cache, "/"), Some(Resolved::Entry(_)))); // index
    assert!(matches!(resolve(cache, "/blog/"), Some(Resolved::Entry(_)))); // dir index served
    assert!(matches!(resolve(cache, "/blog"), Some(Resolved::DirIndex))); // needs trailing slash
    assert!(resolve(cache, "/missing").is_none());
}

#[test]
fn a_sites_own_headers_cover_its_errors_and_redirects() {
    // A per-site csp must not stop at the 200s the cache baked it into.
    let mut s = vh_site("example.com", "/www");
    s.headers = HeaderConfig { csp: "default-src 'none'".into(), ..Default::default() };
    s.redirects = Arc::new(rules("redirect /old -> /new"));
    let v = content_of(s, Storage::Memory);
    for raw in [
        "GET /old HTTP/1.1\r\nHost: example.com\r\n\r\n",     // 301
        "GET /missing HTTP/1.1\r\nHost: example.com\r\n\r\n", // 404
    ] {
        let r = run(&v, raw, true, false).1;
        assert_eq!(header(&r, "Content-Security-Policy:").as_deref(), Some("default-src 'none'"), "{r}");
    }
    // A response sent before any site is known keeps the server-level block.
    let r = run(&v, "GET / HTTP/1.1\r\nHost: nope.test\r\n\r\n", true, false).1;
    assert!(r.starts_with("HTTP/1.1 404"));
    assert!(header(&r, "Content-Security-Policy:").is_none(), "{r}");
}

// ---- the table of sites ----

#[test]
fn build_vhosts_happy_path_indexes_every_site() {
    // A rootless redirect-only host is an ordinary site in the same table.
    let mut w = vh_site_full("www.a.com", None);
    w.redirects = Arc::new(rules("redirect * -> https://a.com$0"));
    let cfg = cfg_of(vec![vh_site("a.com", "/a"), vh_site("b.com", "/b"), w]);
    let vh = build_vhosts(&cfg, INDEX).expect("built");
    assert!(vh.vhosts().names.get("a.com").is_some() && vh.vhosts().names.get("b.com").is_some());
    let redirect_only = vh.site("www.a.com");
    assert!(redirect_only.root.is_none());
    assert_eq!(vh.cache("www.a.com").count(), 0);
    assert_eq!(redirect_only.redirects.resolve("/p").as_deref(), Some("https://a.com/p"));
}

#[test]
fn build_vhosts_rejects_duplicate_host_across_sites() {
    let cfg = cfg_of(vec![vh_site("dup.com", "/a"), vh_site("dup.com", "/b")]);
    assert!(build_vhosts(&cfg, INDEX).err().unwrap().contains("duplicate host"));
    assert_eq!(
        build_vhosts(&cfg, INDEX).err().unwrap(),
        "duplicate host across sites: dup.com"
    );
}

#[test]
fn build_vhosts_rejects_a_content_site_colliding_with_a_redirect_only_one() {
    let mut w = vh_site_full("a.com", None);
    w.redirects = Arc::new(rules("redirect * -> https://b.com$0"));
    let cfg = cfg_of(vec![vh_site("a.com", "/a"), w]);
    assert!(build_vhosts(&cfg, INDEX).err().unwrap().contains("duplicate host"));
}

#[test]
fn build_vhosts_rejects_a_non_directory_root() {
    let s = vh_site("a.com", "/d/a-file");
    assert!(check_root(&s, "/d/a-file", &Root::Directory).is_ok());
    let e = check_root(&s, "/d/a-file", &Root::Other).err().unwrap();
    assert!(e.contains("is not a directory"));
    assert_eq!(e, "site a.com: root /d/a-file is not a directory");
}

#[test]
fn build_vhosts_rejects_a_missing_root() {
    let s = vh_site("a.com", "/no/such/root/anywhere");
    let gone = Root::Unusable("No such file or directory".to_string());
    assert_eq!(
        check_root(&s, "/no/such/root/anywhere", &gone).err().unwrap(),
        "site a.com: root /no/such/root/anywhere unusable: No such file or directory"
    );
}

#[test]
fn build_runtime_applies_server_tuning_to_the_built_cache() {
    // Settings must reach the cache. The page is compressible, so with the
    // defaults it WOULD carry gzip/br variants.
    let mut cfg = cfg_of(vec![vh_site("localhost", "www")]);
    cfg.sites[0].tuning.compression = false;
    cfg.sites[0].tuning.cache_max_age = 77;
    let page = css();
    let rt = build_vhosts(&cfg, &[("index.html", page.as_bytes())]).expect("runtime built");
    let e = match rt.cache("localhost").get("/index.html").expect("index cached") {
        Cached::Mem(m) => m,
        Cached::Disk(_) => panic!("memory storage expected"),
    };
    assert!(e.gzip.is_none() && e.br.is_none(), "compression=off must reach the cache");
    assert!(!e.vary);
    assert_eq!(&*e.cache_control, "public, max-age=77, must-revalidate");
    // And the site carries the policy the watcher will rebuild it with.
    let site = rt.site("localhost");
    assert!(!site.policy.t.compression);
    assert_eq!(site.policy.t.cache_max_age, 77);
}

#[test]
fn the_precomputed_errors_are_charged_to_the_ram_budget() {
    // max_total_bytes counts every byte actually retained, and these buffers
    // are retained for the life of the process.
    let one_set = ErrorPages::new(&HeaderConfig::default().render()).retained_bytes();
    let build = |budget: usize| {
        let mut s = vh_site("a.com", "/the/root");
        s.tuning.max_total_bytes = budget;
        build_vhosts(&cfg_of(vec![s]), INDEX)
    };
    // A boot holds two sets: the server-level one and this site's. A budget
    // that fits only one must fail, even though the content is a single byte.
    let e = build(one_set).err().expect("one set of errors does not fit two");
    assert!(build(2 * one_set + 4096).is_ok(), "both sets plus the content fit");
    // The message must name the error responses. Pointing at the document
    // root would send the operator after content that was never read.
    assert!(e.contains("max_total_bytes"), "{e}");
    assert!(e.contains("precomputed error responses"), "{e}");
    assert!(!e.contains("/the/root"), "the root is not the cause: {e}");
    // Where the pages fit and the content does not, it is the other way round.
    let e = build(2 * one_set).err().unwrap();
    assert_eq!(
        e,
        format!(
            "site a.com: root /the/root unreadable, or its content takes the cache over \
             max_total_bytes ({}, of which {} bytes were already retained)",
            2 * one_set,
            2 * one_set
        )
    );
}

#[test]
fn the_error_page_budget_holds_where_the_content_walk_does_not_run() {
    // Disk storage keeps no bodies in RAM, and a redirect-only site has no root
    // to walk. The error buffers are resident in both.
    let one_set = ErrorPages::new(&HeaderConfig::default().render()).retained_bytes();
    let disk = |budget: usize| {
        let mut s = vh_site("a.com", "/a");
        s.tuning.max_total_bytes = budget;
        let mut cfg = cfg_of(vec![s]);
        cfg.storage = Storage::Disk;
        cfg.disk_cache = Some("/cache".into());
        build_vhosts(&cfg, INDEX)
    };
    assert!(disk(one_set).is_err(), "disk storage still holds two sets in RAM");
    assert!(disk(2 * one_set).is_ok(), "two sets fit; the bodies are on disk");
    // Redirect-only: 30 hosts, each with its own set, and no root anywhere.
    let redirect_only = |count: usize, budget: usize| {
        let sites: Vec<_> = (0..count)
            .map(|i| {
                let mut s = vh_site_full(&format!("h{i}.com"), None);
                s.tuning.max_total_bytes = budget;
                s
            })
            .collect();
        build_vhosts(&cfg_of(sites), INDEX)
    };
    assert!(redirect_only(30, 30 * one_set).is_err(), "31 sets do not fit 30");
    let fits = redirect_only(30, 31 * one_set).ok().expect("31 sets fit 31");
    assert_eq!(error_page_bytes(fits.vhosts()), 31 * one_set);
}

#[test]
fn build_vhosts_gives_each_site_its_own_settings() {
    // The point of per-site overrides: two sites in one process, different
    // Cache-Control and different response headers.
    let mut a = vh_site("a.com", "/a");
    a.tuning.cache_max_age = 11;
    a.headers.csp = "default-src 'self'".into();
    let mut b = vh_site("b.com", "/b");
    b.tuning.cache_max_age = 22;
    b.tuning.compression = false;
    let page = css();
    let vh = build_vhosts(&cfg_of(vec![a, b]), &[("index.html", page.as_bytes())]).expect("built");
    let (sa, sb) = (vh.site("a.com"), vh.site("b.com"));
    assert_eq!(sa.policy.t.cache_max_age, 11);
    assert_eq!(sb.policy.t.cache_max_age, 22);
    assert!(sa.policy.t.compression && !sb.policy.t.compression);
    assert!(sa.policy.security_headers.contains("Content-Security-Policy: default-src 'self'"));
    assert!(!sb.policy.security_headers.contains("Content-Security-Policy"));
    // The override reaches each site's precomputed errors, not only its 200s.
    let a404 = String::from_utf8_lossy(sa.policy.errors.not_found.bytes(true, false));
    let b404 = String::from_utf8_lossy(sb.policy.errors.not_found.bytes(true, false));
    assert!(a404.contains("Content-Security-Policy: default-src 'self'"), "{a404}");
    assert!(!b404.contains("Content-Security-Policy"), "{b404}");
    // ...and the override actually reached the bytes each cache holds.
    match vh.cache("a.com").get("/index.html").unwrap() {
        Cached::Mem(m) => {
            assert_eq!(&*m.cache_control, "public, max-age=11, must-revalidate");
            assert!(m.br.is_some(), "a.com keeps compression on");
        }
        Cached::Disk(_) => panic!("memory storage expected"),
    }
}

#[test]
fn build_vhosts_propagates_force_ssl_to_every_alias() {
    let mut s1 = vh_site("a.com", "/a");
    s1.hosts = vec!["a.com".into(), "www.a.com".into()]; // aliases share one Site
    s1.force_ssl = true;
    let s2 = vh_site("b.com", "/b"); // force_ssl off
    let vh = build_vhosts(&cfg_of(vec![s1, s2]), INDEX).unwrap();
    assert!(vh.site("a.com").force_ssl);
    assert!(vh.site("www.a.com").force_ssl, "an alias must inherit force_ssl");
    assert!(!vh.site("b.com").force_ssl, "force_ssl is per site, not global");
}

// ---- the keep-alive loop over a byte stream ----

#[test]
fn serve_over_handles_pipelined_requests() {
    let v = fixture("example.com");
    let two = "GET / HTTP/1.1\r\nHost: example.com\r\n\r\nGET /about HTTP/1.1\r\nHost: example.com\r\n\r\n";
    let out = serve_over(&v, two.as_bytes(), 4096);
    assert_eq!(out.matches("HTTP/1.1 200 OK").count(), 2, "both pipelined requests answered");
}

#[test]
fn serve_over_rejects_oversized_head_with_431() {
    let v = fixture("example.com");
    let out = serve_over(&v, &vec![b'A'; 9000], 4096); // no blank line, over the limit
    assert!(out.contains("431"));
}

#[test]
fn serve_over_clean_close_on_empty_input() {
    let v = fixture("example.com");
    assert!(serve_over(&v, b"", 4096).is_empty(), "a client that sends nothing gets nothing");
}

#[test]
fn how_the_bytes_arrive_does_not_show() {
    let v = fixture("example.com");
    let two = "GET / HTTP/1.1\r\nHost: example.com\r\n\r\nGET /nope HTTP/1.1\r\nHost: example.com\r\n\r\n";
    let whole = serve_over(&v, two.as_bytes(), 4096);
    assert_eq!(serve_over(&v, two.as_bytes(), 1), whole);
    assert_eq!(serve_over(&v, two.as_bytes(), 7), whole);
}

#[test]
fn a_connection_serves_so_many_requests() {
    let v = fixture("example.com");
    let one = "GET /nope HTTP/1.1\r\nHost: example.com\r\n\r\n";
    let out = serve_over(&v, one.repeat(MAX_REQS_PER_CONN + 5).as_bytes(), 4096);
    assert_eq!(out.matches("HTTP/1.1 404").count(), MAX_REQS_PER_CONN);
    assert_eq!(out.matches("Connection: close").count(), 1, "the last one says so");
}

#[test]
fn a_slow_head_is_timed_out() {
    let mut conn = Conn::new(Vec::new(), 60 * SECOND);
    assert!(matches!(conn.serve_over(Event::Start, 0), Action::Read));
    assert!(matches!(conn.serve_over(Event::Bytes(b"GET "), SECOND), Action::Read));
    assert!(conn.phase_deadline().is_some());
    assert!(matches!(conn.serve_over(Event::Bytes(b"/"), 30 * SECOND), Action::TimedOut));
}

#[test]
fn an_expired_connection_is_closed() {
    let mut conn = Conn::new(Vec::new(), 5 * SECOND);
    assert!(matches!(conn.serve_over(Event::Start, 6 * SECOND), Action::Close));
}

#[test]
fn early_bytes_come_first() {
    let mut conn = Conn::new(b"GET / HTTP/1.1\r\n\r\n".to_vec(), 60 * SECOND);
    assert!(matches!(conn.serve_over(Event::Start, 0), Action::Answer { end: 18, want_ka: true }));
    assert_eq!(conn.head(), b"GET / HTTP/1.1\r\n\r\n");
}

#[test]
fn early_data_is_bounded() {
    let mut buf = vec![0u8; MAX_EARLY_DATA_BYTES - 2];
    assert!(take_early(&mut buf, b"ab"));
    assert_eq!(buf.len(), MAX_EARLY_DATA_BYTES);
    assert!(!take_early(&mut buf, b"c"));
}

#[test]
fn a_handshake_ends() {
    let mut h = Handshake::new(0);
    let mut rounds = 0;
    while h.may_go_on(0) {
        rounds += 1;
    }
    assert_eq!(rounds, MAX_HANDSHAKE_ROUNDS);
    let mut h = Handshake::new(0);
    assert!(h.may_go_on(9 * SECOND));
    assert!(!h.may_go_on(10 * SECOND));
}

#[test]
fn no_more_of_a_file_is_sent_than_was_declared() {
    assert_eq!(body_part(4096, 10), 10);
    assert_eq!(body_part(5, 10), 5);
}

// ---- the deadlines below the encryption ----

fn io(window: u64, moved: usize) -> DeadlineIo {
    DeadlineIo { window, moved, deadline: None, phase: Phase::new() }
}

#[test]
fn deadline_io_refuses_a_response_below_the_minimum_rate() {
    // A window that has already elapsed with nothing delivered: the very next
    // write is refused.
    let mut dl = io(0, 0);
    assert!(matches!(dl.before_write(PROGRESS_TIMEOUT), Err(Stall::Rate)));
}

#[test]
fn deadline_io_allows_a_window_that_met_the_minimum() {
    // Same elapsed window, but the minimum was already delivered in it: a
    // genuinely slow-but-real download must not be truncated.
    let mut dl = io(0, MIN_PROGRESS_BYTES);
    assert!(dl.before_write(PROGRESS_TIMEOUT).is_ok());
    dl.wrote(5);
    // The window rolled over on the way in, so the next one is judged on
    // its own merits rather than on the burst that satisfied this one.
    assert_eq!(dl.moved, 5);
}

#[test]
fn deadline_io_enforces_the_armed_phase_deadline() {
    let mut dl = io(0, 0);
    let now = 10 * SECOND;
    // Disarmed: a read is governed by the socket timeout alone.
    assert!(dl.check(now).is_ok());
    // Armed in the past: this is what bounds a client stalled inside a partial
    // record, where the loop above never regains control.
    dl.phase.arm(now - SECOND);
    assert_eq!(dl.phase.get(), Some(9 * SECOND));
    assert!(matches!(dl.check(now), Err(Stall::Head)));
    // Disarming again releases it: the response phase uses the rate check.
    dl.phase.disarm();
    assert!(dl.check(now).is_ok());
}

#[test]
fn deadline_io_read_starts_a_fresh_window() {
    let mut dl = io(0, 0);
    let now = 120 * SECOND;
    dl.read(4, now);
    // An idle keep-alive gap must not condemn the next response: reading the
    // request head restarts the window rather than carrying the stale one in.
    assert_eq!(dl.window, now);
    assert!(dl.check_rate(now).is_ok());
}

#[test]
fn the_cap_on_a_response_is_enforced() {
    let dl = DeadlineIo::new(SECOND, 2);
    assert_eq!(dl.deadline, Some(3 * SECOND));
    assert!(dl.check(3 * SECOND - 1).is_ok());
    assert!(matches!(dl.check(4 * SECOND), Err(Stall::Transfer)));
    assert_eq!(DeadlineIo::new(0, 0).deadline, None);
}

// ---- exact answers ----

#[test]
fn a_redirect_is_exact() {
    let Reply::Built { bytes, keep_alive } = send_redirect("https://h/x", true, "X: 1\r\n") else {
        panic!("one buffer");
    };
    assert!(keep_alive);
    assert_eq!(
        String::from_utf8(bytes).unwrap(),
        "HTTP/1.1 301 Moved Permanently\r\nLocation: https://h/x\r\nContent-Length: 0\r\n\
         Connection: keep-alive\r\nX: 1\r\n\r\n"
    );
}

#[test]
fn a_304_is_exact() {
    let Reply::Built { bytes, .. } = send_304("e", Some("br"), true, "no-cache", false, "X: 1\r\n") else {
        panic!("one buffer");
    };
    assert_eq!(
        String::from_utf8(bytes).unwrap(),
        "HTTP/1.1 304 Not Modified\r\nETag: \"e\"\r\nContent-Encoding: br\r\nVary: Accept-Encoding\r\n\
         Cache-Control: no-cache\r\nConnection: close\r\nX: 1\r\n\r\n"
    );
}

#[test]
fn a_status_page_is_sent_as_it_is() {
    let pages = ErrorPages::new("");
    let Reply::Ready { page, keep_alive } = send_error(&pages.not_found, true, false) else {
        panic!("a page built beforehand");
    };
    assert!(keep_alive);
    assert_eq!(page, pages.not_found.bytes(true, false));
}

#[test]
fn a_token_answer_is_exact() {
    let f = fixture("example.com");
    let policy = &f.site("example.com").policy;
    let (ka, out, _) = carry_out(&f, token_reply(Some(b"KEY".to_vec()), false, false, policy));
    assert!(!ka);
    assert_eq!(
        String::from_utf8(out).unwrap(),
        format!(
            "HTTP/1.1 200 OK\r\nContent-Type: text/plain; charset=utf-8\r\nContent-Length: 3\r\n\
             Cache-Control: no-store\r\nConnection: close\r\n{}\r\nKEY",
            policy.security_headers
        )
    );
    assert!(sendable_token(true, 1, 4096));
    assert!(!sendable_token(true, 2, 10) && !sendable_token(false, 1, 10) && !sendable_token(true, 1, 4097));
}

#[test]
fn a_file_that_is_gone_is_a_500_that_closes() {
    let f = disk_fixture("example.com");
    let raw = b"GET /style.css HTTP/1.1\r\nHost: example.com\r\n\r\n";
    match handle_request(raw, f.vhosts(), &f.caches, true, false, None) {
        Reply::File { missing, path, len, site, .. } => {
            assert!(missing.starts_with(b"HTTP/1.1 500"));
            assert!(String::from_utf8_lossy(missing).contains("Connection: close"));
            assert_eq!((site, path, len), (0, "identity/style.css", css().len() as u64));
        }
        _ => panic!("a file is streamed"),
    }
}

#[test]
fn a_content_answer_is_a_prefix_of_the_get_for_head() {
    for f in [fixture("example.com"), disk_fixture("example.com")] {
        let get = run(&f, "GET /style.css HTTP/1.1\r\nHost: example.com\r\n\r\n", true, false).1;
        let head = run(&f, "HEAD /style.css HTTP/1.1\r\nHost: example.com\r\n\r\n", true, false).1;
        assert!(get.starts_with(&head) && get.len() > head.len());
    }
}

#[test]
fn every_answer_carries_the_security_headers() {
    let f = fixture_redirects("example.com", rules("redirect /old -> /new"));
    for path in ["/", "/style.css", "/old", "/blog", "/nope", "/.well-known/acme-challenge/x"] {
        let raw = format!("GET {path} HTTP/1.1\r\nHost: example.com\r\n\r\n");
        let r = run(&f, &raw, true, false).1;
        assert_eq!(header(&r, "X-Content-Type-Options:").as_deref(), Some("nosniff"), "{path}: {r}");
    }
}
