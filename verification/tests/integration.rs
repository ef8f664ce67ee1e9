//! A whole server in memory: a configuration text, the content of its root, and
//! requests as they come in on either listener.
use bare_server::cache::{CacheBuilder, Kind, SiteCache, Visit};
use bare_server::config::parse_config;
use bare_server::conn::{Action, Conn, Event, SECOND};
use bare_server::serve::{handle_request, sendable_token, token_reply, Reply};
use bare_server::vhosts::VhostsBuilder;
use std::sync::Arc;

struct TestServer {
    builder: VhostsBuilder,
    caches: Vec<Arc<SiteCache>>,
    https: u16,
}

impl TestServer {
    fn start() -> TestServer {
        TestServer::start_full(true, "", "")
    }

    fn start_with(force_ssl: bool) -> TestServer {
        TestServer::start_full(force_ssl, "", "")
    }

    fn start_site(site_extra: &str) -> TestServer {
        TestServer::start_full(true, "", site_extra)
    }

    fn start_full(force_ssl: bool, extra: &str, site_extra: &str) -> TestServer {
        let (https, http) = (8443, 8080);
        // force_ssl is the default, so the opt-out must be explicit when a test
        // wants content served over plain HTTP.
        let flag = if force_ssl { "" } else { "    force_ssl = off\n" };
        let text = format!(
            "listen = 127.0.0.1:{https}\nlisten_http = 127.0.0.1:{http}\n{extra}\
             site localhost {{\n    root = /www\n    cert = /c\n    key  = /k\n{flag}{site_extra}\n}}\n"
        );
        let cfg = parse_config(&text).expect("the configuration parses");
        let mut builder = VhostsBuilder::new(&cfg);
        let s = &cfg.sites[0];
        let policy = builder.open_site(&cfg, s).unwrap();
        let mut b = CacheBuilder::new(builder.total as usize, &policy);
        let style = "body { color: red; }\n".repeat(20);
        for (dir, name, data) in [
            ("", "index.html", "<h1>home</h1>"),
            ("", "about.html", "<h1>about</h1>"),
            ("/blog", "index.html", "<h1>blog</h1>"),
            ("", "style.css", style.as_str()),
        ] {
            match b.visit(dir, name, Kind::File, data.len()) {
                Visit::Load(url) => {
                    let cached = b.hold(&url, data.as_bytes());
                    assert!(b.take_in(url, cached));
                }
                _ => panic!("{dir}/{name} is loaded"),
            }
        }
        let CacheBuilder { total, cache, .. } = b;
        builder.close_site(s, s.root.clone(), policy, total).unwrap();
        TestServer { builder, caches: vec![Arc::new(cache)], https }
    }

    /// One connection on a listener: what comes back before it closes.
    fn connect(&self, raw: &str, plain: bool, sni: Option<&str>) -> String {
        let vhosts = &self.builder.vhosts;
        let mut conn = Conn::new(Vec::new(), 60 * SECOND);
        let mut out: Vec<u8> = Vec::new();
        let mut action = conn.serve_over(Event::Start, 0);
        let mut sent = false;
        loop {
            action = match action {
                Action::Read if sent => conn.serve_over(Event::Lost, 0),
                Action::Read => {
                    sent = true;
                    conn.serve_over(Event::Bytes(raw.as_bytes()), 0)
                }
                Action::Answer { want_ka, .. } => {
                    let mut reply =
                        handle_request(conn.head(), vhosts, &self.caches, want_ka, plain, sni);
                    if let Reply::Token { site, token, keep_alive, is_head, .. } = reply {
                        let body = Some(b"KEYAUTHZ".to_vec())
                            .filter(|b| token == "tok-abc" && sendable_token(true, 1, b.len() as u64));
                        reply = token_reply(body, keep_alive, is_head, &vhosts.sites[site].policy);
                    }
                    let ka = match reply {
                        Reply::Ready { page, keep_alive } => {
                            out.extend_from_slice(page);
                            keep_alive
                        }
                        Reply::Built { bytes, keep_alive } => {
                            out.extend_from_slice(&bytes);
                            keep_alive
                        }
                        Reply::Split { head, body, keep_alive } => {
                            out.extend_from_slice(&head);
                            out.extend_from_slice(body);
                            keep_alive
                        }
                        _ => panic!("nothing is on disk"),
                    };
                    conn.serve_over(Event::Answered(ka), 0)
                }
                _ => break,
            };
        }
        String::from_utf8_lossy(&out).into_owned()
    }

    fn plain(&self, raw: &str) -> String {
        self.connect(raw, true, None)
    }

    fn secure(&self, method: &str, headers: &str, path: &str) -> String {
        let raw = format!("{method} {path} HTTP/1.1\r\nHost: localhost\r\n{headers}\r\n");
        self.connect(&raw, false, Some("localhost"))
    }

    fn get(&self, path: &str) -> String {
        self.secure("GET", "", path)
    }
}

/// Case-insensitive header lookup.
fn header(resp: &str, name: &str) -> Option<String> {
    resp.split("\r\n").find_map(|line| {
        let (k, v) = line.split_once(':')?;
        if k.trim().eq_ignore_ascii_case(name) {
            Some(v.trim().to_string())
        } else {
            None
        }
    })
}

fn status_ok(resp: &str, code: &str) -> bool {
    resp.lines().next().map(|l| l.contains(code)).unwrap_or(false)
}

#[test]
fn https_serves_index_over_real_tls() {
    let srv = TestServer::start();
    let r = srv.get("/");
    assert!(status_ok(&r, "200"), "{r}");
    assert_eq!(header(&r, "content-type").as_deref(), Some("text/html; charset=utf-8"));
    assert!(r.contains("<h1>home</h1>"));
    // HTTP/1.1 default keep-alive is reflected back.
    assert_eq!(header(&r, "connection").as_deref(), Some("keep-alive"));
    // A baked security header made it through the whole stack.
    assert!(header(&r, "strict-transport-security").is_some());
}

#[test]
fn https_head_has_no_body() {
    let srv = TestServer::start();
    let r = srv.secure("HEAD", "", "/");
    assert!(status_ok(&r, "200"), "{r}");
    assert_eq!(header(&r, "content-length").as_deref(), Some("13"));
    assert_eq!(r.split("\r\n\r\n").nth(1).unwrap_or("").trim(), "");
}

#[test]
fn https_missing_is_404_and_bad_host_is_404() {
    let srv = TestServer::start();
    assert!(status_ok(&srv.get("/nope"), "404"));
    // An unconfigured Host: the allowlist answers 404.
    let r = srv.connect("GET / HTTP/1.1\r\nHost: evil.example\r\n\r\n", false, Some("localhost"));
    assert!(status_ok(&r, "404"), "{r}");
}

#[test]
fn https_clean_url_and_dir_index_redirect() {
    let srv = TestServer::start();
    // Extensionless clean URL resolves to about.html.
    assert!(status_ok(&srv.get("/about"), "200"));
    // A directory without a trailing slash 301s to the slash form, which names
    // the listener's port unless it is the default one.
    let r = srv.get("/blog");
    assert!(status_ok(&r, "301"), "{r}");
    assert_eq!(
        header(&r, "location").as_deref(),
        Some(format!("https://localhost:{}/blog/", srv.https).as_str())
    );
}

#[test]
fn https_content_negotiation_and_conditional_get() {
    let srv = TestServer::start();
    let br = srv.secure("GET", "Accept-Encoding: br\r\n", "/style.css");
    assert_eq!(header(&br, "content-encoding").as_deref(), Some("br"));
    assert_eq!(header(&br, "vary").as_deref(), Some("Accept-Encoding"));

    // Grab the identity ETag, then revalidate -> 304.
    let first = srv.get("/style.css");
    let etag = header(&first, "etag").expect("etag present");
    let second = srv.secure("GET", &format!("If-None-Match: {etag}\r\n"), "/style.css");
    assert!(status_ok(&second, "304"), "{second}");
}

#[test]
fn plain_http_redirects_to_https_with_force_ssl() {
    // Default fixture sets `force_ssl` on the site.
    let srv = TestServer::start();
    let r = srv.plain("GET /page?x=1 HTTP/1.1\r\nHost: localhost\r\nConnection: close\r\n\r\n");
    assert!(status_ok(&r, "301"), "{r}");
    assert_eq!(
        header(&r, "location").as_deref(),
        Some(format!("https://localhost:{}/page?x=1", srv.https).as_str())
    );
}

#[test]
fn plain_http_serves_acme_challenge_without_redirect() {
    let srv = TestServer::start();
    let r = srv.plain(
        "GET /.well-known/acme-challenge/tok-abc HTTP/1.1\r\nHost: localhost\r\nConnection: close\r\n\r\n",
    );
    assert!(status_ok(&r, "200"), "ACME must be answered on :80, not redirected: {r}");
    assert_eq!(header(&r, "cache-control").as_deref(), Some("no-store"));
    assert!(r.ends_with("KEYAUTHZ"));

    // A non-existent token is a 404, still not a redirect.
    let miss = srv.plain(
        "GET /.well-known/acme-challenge/absent HTTP/1.1\r\nHost: localhost\r\nConnection: close\r\n\r\n",
    );
    assert!(status_ok(&miss, "404"), "{miss}");
}

#[test]
fn plain_http_rejects_a_declared_body() {
    let srv = TestServer::start();
    // Content-Length > 0 with no method that takes a body: 400 + close, so the
    // undrained body can never be re-parsed as the next request.
    let r = srv.plain(
        "GET / HTTP/1.1\r\nHost: localhost\r\nContent-Length: 5\r\nConnection: close\r\n\r\nHELLO",
    );
    assert!(status_ok(&r, "400"), "{r}");
}

#[test]
fn plain_http_serves_content_without_force_ssl() {
    let srv = TestServer::start_with(false);
    let r = srv.plain("GET / HTTP/1.1\r\nHost: localhost\r\nConnection: close\r\n\r\n");
    assert!(status_ok(&r, "200"), "expected content over plain HTTP: {r}");
    assert!(r.contains("<h1>home</h1>"), "body should be served over :80: {r}");
    // HTTPS is unaffected and still serves the same site.
    assert!(status_ok(&srv.get("/"), "200"));
}

#[test]
fn configured_redirect_rules_are_served_as_301s() {
    let srv = TestServer::start_site(
        "    redirect /old      -> /new\n    redirect /docs/*   -> /help/$1\n    redirect /gone     -> https://other.test/x",
    );

    // Exact rule: a bare-path target gets this host's scheme and authority.
    let r = srv.get("/old");
    assert!(status_ok(&r, "301"), "{r}");
    assert_eq!(
        header(&r, "location").as_deref(),
        Some(format!("https://localhost:{}/new", srv.https).as_str())
    );

    // Prefix rule: the remainder rides along as $1.
    let r = srv.get("/docs/a/b");
    assert_eq!(
        header(&r, "location").as_deref(),
        Some(format!("https://localhost:{}/help/a/b", srv.https).as_str())
    );

    // Absolute target: emitted verbatim, no authority rewriting.
    let r = srv.get("/gone");
    assert!(status_ok(&r, "301"), "{r}");
    assert_eq!(header(&r, "location").as_deref(), Some("https://other.test/x"));

    // The query string survives.
    let r = srv.get("/old?a=1&b=2");
    assert_eq!(
        header(&r, "location").as_deref(),
        Some(format!("https://localhost:{}/new?a=1&b=2", srv.https).as_str())
    );

    // Unmatched paths still serve content.
    assert!(status_ok(&srv.get("/"), "200"));
}

#[test]
fn a_redirect_rule_reaches_the_plain_listener_in_one_hop() {
    // A force_ssl site: the rule runs before the HTTP -> HTTPS upgrade, so the
    // client is sent straight to the final https:// target.
    let srv = TestServer::start_site("    redirect /old -> https://other.test/x");
    let r = srv.plain("GET /old HTTP/1.1\r\nHost: localhost\r\nConnection: close\r\n\r\n");
    assert!(status_ok(&r, "301"), "{r}");
    assert_eq!(header(&r, "location").as_deref(), Some("https://other.test/x"));
}

#[test]
fn a_catch_all_rule_still_leaves_the_acme_challenge_answerable() {
    // Renewal must keep working on a host that redirects everything.
    let srv = TestServer::start_site("    redirect * -> https://other.test$0");
    let r = srv.plain(
        "GET /.well-known/acme-challenge/tok-abc HTTP/1.1\r\nHost: localhost\r\nConnection: close\r\n\r\n",
    );
    assert!(status_ok(&r, "200"), "ACME must survive a catch-all rule: {r}");
    assert!(r.ends_with("KEYAUTHZ"));
    // Everything else is redirected, over TLS as well as plain HTTP.
    let r = srv.get("/anything");
    assert_eq!(header(&r, "location").as_deref(), Some("https://other.test/anything"));
}

#[test]
fn per_site_settings_reach_the_served_response() {
    // A site block overriding the header and cache-control policy for itself.
    let srv = TestServer::start_site(
        "    csp = default-src 'self'\n    cache_max_age = 123\n    hsts_max_age = 0",
    );
    let r = srv.get("/");
    assert!(status_ok(&r, "200"), "{r}");
    assert_eq!(header(&r, "content-security-policy").as_deref(), Some("default-src 'self'"));
    assert_eq!(header(&r, "cache-control").as_deref(), Some("public, max-age=123, must-revalidate"));
    assert!(
        header(&r, "strict-transport-security").is_none(),
        "hsts_max_age = 0 must drop the header: {r}"
    );
    // The same block covers responses the cache did not bake: a 404, a redirect.
    let miss = srv.get("/missing");
    assert!(status_ok(&miss, "404"), "{miss}");
    assert_eq!(header(&miss, "content-security-policy").as_deref(), Some("default-src 'self'"));
}
