//! What is cached of a site, and in which forms.
use std::sync::Arc;

use bare_server::cache::{
    cache_bytes, compress_variants, is_compressible, is_fingerprinted, is_hidden, make_cached, make_disk_entry,
    snapshot_path, CacheBuilder, Cached, DiskEntry, Kind, Policy, SiteCache, Visit,
};
use bare_server::compress::{brotli_compress, gzip_compress};
use bare_server::config::{Config, HeaderConfig, SiteConfig, Storage, Tuning};
use bare_server::response::{build_variant, etag_for, mix, ErrorPages};
use bare_server::signature::{
    dir_signature, file_signature, is_before, order_nodes, root_links, root_links_of, tls_paths,
    tls_signature, tree_signature, Entry, Node, Stamp,
};

fn pol() -> Policy {
    Policy::new(Tuning::default())
}

fn with(f: impl FnOnce(&mut Tuning)) -> Policy {
    let mut t = Tuning::default();
    f(&mut t);
    Policy::new(t)
}

fn css(n: usize) -> Vec<u8> {
    "body { color: red; }\n".repeat(n).into_bytes()
}

fn disk_policy() -> Policy {
    Policy::with_headers(
        Tuning::default(),
        &HeaderConfig::default(),
        Storage::Disk,
        "/var/cache/bs".to_string(),
    )
}

fn cfg(sites: Vec<SiteConfig>) -> Config {
    Config {
        host: "127.0.0.1".into(),
        port: "443".into(),
        http_host: String::new(),
        http_port: String::new(),
        sites,
        headers: Default::default(),
        max_conns_per_ip: 64,
        max_response_secs: 0,
        storage: Storage::Memory,
        disk_cache: None,
    }
}

fn site(host: &str, root: Option<&str>, cert: &str, key: &str) -> SiteConfig {
    SiteConfig {
        hosts: vec![host.into()],
        root: root.map(Into::into),
        cert: cert.into(),
        key: key.into(),
        force_ssl: false,
        canonical_urls: false,
        redirects: Arc::new(Default::default()),
        tuning: Tuning::default(),
        headers: Default::default(),
    }
}

/// Walks a tree that is written down as paths with their bytes. `None` stands for
/// a build that was given up.
fn build_cache(files: &[(&str, &[u8])], total: &mut usize, policy: &Policy) -> Option<SiteCache> {
    let mut b = CacheBuilder::new(*total, policy);
    for (path, data) in files {
        let (dirs, name) = path.rsplit_once('/').unwrap_or(("", path));
        let mut prefix = Some(String::new());
        for dir in dirs.split('/').filter(|d| !d.is_empty()) {
            prefix = prefix.and_then(|p| match b.visit(&p, dir, Kind::Dir, 0) {
                Visit::Descend(url) => Some(url),
                _ => None,
            });
        }
        let Some(prefix) = prefix else { continue };
        match b.visit(&prefix, name, Kind::File, data.len()) {
            Visit::Load(url) => {
                let cached = match policy.storage {
                    Storage::Memory => b.hold(&url, data),
                    Storage::Disk => Cached::Disk(b.stage(&url, data).entry),
                };
                if !b.take_in(url, cached) {
                    return None;
                }
            }
            Visit::OverBudget(_) => return None,
            _ => {}
        }
    }
    *total = b.total;
    Some(b.cache)
}

fn disk_entry<'a>(cache: &'a SiteCache, url: &str) -> &'a DiskEntry {
    match cache.get(url).expect("cached") {
        Cached::Disk(d) => d,
        Cached::Mem(_) => panic!("disk storage expected"),
    }
}

fn file(name: &str, len: u64, mtime: u64) -> Node {
    Node {
        raw: name.as_bytes().to_vec(),
        name: name.to_string(),
        entry: Entry::File(Stamp { len, mtime }),
    }
}

#[test]
fn a_status_response_is_one_buffer_per_connection_form() {
    let e = ErrorPages::new("X-Site: yes\r\n");
    let ka = String::from_utf8_lossy(e.not_found.bytes(true, false)).into_owned();
    let close = String::from_utf8_lossy(e.not_found.bytes(false, false)).into_owned();
    assert!(ka.starts_with("HTTP/1.1 404 Not Found\r\n"), "{ka}");
    assert!(ka.contains("Connection: keep-alive\r\n"), "{ka}");
    assert!(close.contains("Connection: close\r\n"), "{close}");
    // The site's own header block is inside the buffer, so an error carries
    // the same CSP and HSTS as that site's 200s.
    assert!(ka.contains("X-Site: yes\r\n"), "{ka}");
    // A 404 must never be stored: see `build_status`.
    assert!(ka.contains("Cache-Control: no-store\r\n"), "{ka}");
    // Header and body are one buffer, which is the whole point.
    let (head, body) = ka.split_once("\r\n\r\n").expect("header terminator");
    assert_eq!(body, "<!doctype html><title>404 Not Found</title><h1>404 Not Found</h1>\n");
    assert!(head.contains(&format!("Content-Length: {}\r\n", body.len())), "{head}");
}

#[test]
fn a_head_answer_is_the_same_buffer_without_the_body() {
    let e = ErrorPages::new("");
    for keep_alive in [true, false] {
        let full = e.internal_error.bytes(keep_alive, false);
        let head = e.internal_error.bytes(keep_alive, true);
        assert!(full.starts_with(head), "a HEAD answer is a prefix of the GET answer");
        assert!(head.ends_with(b"\r\n\r\n"), "it stops at the header terminator");
        assert!(full.len() > head.len(), "the GET answer carries a body");
    }
    // Both forms are retained, and both are charged to the RAM budget.
    assert_eq!(
        e.internal_error.retained_bytes(),
        e.internal_error.bytes(true, false).len() + e.internal_error.bytes(false, false).len()
    );
}

#[test]
fn every_generated_status_is_precomputed() {
    // One buffer per status this server emits. A status added to the serve
    // path without a buffer here would not compile, so this only has to
    // check that each one is really populated.
    let e = ErrorPages::new("");
    for (resp, line) in [
        (&e.bad_request, "HTTP/1.1 400 Bad Request\r\n"),
        (&e.not_found, "HTTP/1.1 404 Not Found\r\n"),
        (&e.method_not_allowed, "HTTP/1.1 405 Method Not Allowed\r\n"),
        (&e.request_timeout, "HTTP/1.1 408 Request Timeout\r\n"),
        (&e.headers_too_large, "HTTP/1.1 431 Request Header Fields Too Large\r\n"),
        (&e.internal_error, "HTTP/1.1 500 Internal Server Error\r\n"),
    ] {
        assert!(resp.bytes(true, false).starts_with(line.as_bytes()), "missing {line}");
    }
    assert!(e.retained_bytes() > 0);
}

#[test]
fn the_405_names_the_methods_it_allows() {
    // An origin server that refuses a method MUST say which
    // methods it supports, or the client cannot adapt. Both connection forms
    // carry it, and it sits in the header block, not the body.
    let e = ErrorPages::new("");
    for keep_alive in [true, false] {
        let head = String::from_utf8_lossy(e.method_not_allowed.bytes(keep_alive, true))
            .to_string();
        assert!(head.contains("Allow: GET, HEAD\r\n"), "{head}");
    }
    // And no other status claims to allow anything.
    for resp in [&e.bad_request, &e.not_found, &e.request_timeout, &e.internal_error] {
        let full = String::from_utf8_lossy(resp.bytes(true, false)).to_string();
        assert!(!full.contains("Allow:"), "{full}");
    }
}

#[test]
fn fingerprinted_urls_are_detected() {
    for url in [
        "/style-0667c2b357.css",
        "/assets/fonts/source-sans-3-400-normal-latin-a1b2c3d4e5.woff2",
        "/app-deadbeef.js",
        "/x-0123456789abcdef.css", // long hash
        "/x-ABCDEF12.css",         // uppercase hex
    ] {
        assert!(is_fingerprinted(url), "expected fingerprinted: {url}");
    }
}

#[test]
fn plain_urls_are_not_pinned() {
    // A false positive here would pin a mutable file for a year, so the
    // real-world un-hashed names this server serves are all checked.
    for url in [
        "/",
        "/style.css",
        "/favicon.ico",
        "/site.webmanifest",
        "/about/index.html",
        "/assets/fonts/source-sans-3-400-normal-latin.woff2",
        "/assets/fonts/dm-serif-display-400-italic-latin.woff2",
        "/assets/images/og-default.png",
        "/assets/images/favicons/android-chrome-192x192.png",
        "/robots.txt",
        "/llms.txt",
        "/sitemap.xml",
        "/reports/export-20240115.json", // date suffix, not a content hash
    ] {
        assert!(!is_fingerprinted(url), "must NOT be pinned: {url}");
    }
}

#[test]
fn short_or_nonhex_suffixes_do_not_qualify() {
    assert!(!is_fingerprinted("/x-abc123.css")); // 6 chars: too short
    assert!(!is_fingerprinted("/x-1234567.css")); // 7 chars: too short
    assert!(is_fingerprinted("/x-1234567a.css")); // 8: the boundary
    assert!(!is_fingerprinted("/x-12345678.css")); // all-decimal: a date, not a hash
    assert!(!is_fingerprinted("/x-latinlatin.css")); // right length, not hex
    assert!(!is_fingerprinted("/noextension"));
    assert!(!is_fingerprinted("/nodash.css"));
}

#[test]
fn policy_follows_fingerprinting() {
    assert!(pol().cache_control_for("/style-0667c2b357.css").contains("immutable"));
    assert!(pol().cache_control_for("/style.css").contains("must-revalidate"));
    assert!(!pol().cache_control_for("/style.css").contains("immutable"));
}

#[test]
fn etag_is_deterministic_and_content_sensitive() {
    assert_eq!(etag_for(b"hello"), etag_for(b"hello"));
    assert_ne!(etag_for(b"hello"), etag_for(b"hellp"));
    // Format is "<len-hex>-<hash-hex>".
    let e = etag_for(b"abc");
    assert!(e.starts_with("3-"), "{e}"); // len 3
    assert!(e[2..].bytes().all(|b| b.is_ascii_hexdigit()));
}

#[test]
fn compressibility_matches_types() {
    for m in [
        "text/html; charset=utf-8",
        "text/plain",
        "application/javascript",
        "application/json",
        "application/xml",
        "image/svg+xml",
        "application/wasm",
    ] {
        assert!(is_compressible(m), "should compress: {m}");
    }
    for m in ["image/png", "image/jpeg", "font/woff2", "application/octet-stream"] {
        assert!(!is_compressible(m), "should NOT compress: {m}");
    }
}

#[test]
fn hidden_skips_dotfiles_except_well_known() {
    assert!(is_hidden(".git"));
    assert!(is_hidden(".env"));
    assert!(!is_hidden(".well-known"));
    assert!(!is_hidden("index.html"));
}

#[test]
fn variant_header_is_well_formed() {
    let v = build_variant("text/css", b"body{}", Some("gzip"), true, "no-store", "X-Test: 1\r\n");
    let head = String::from_utf8(v.full_ka[..v.header_len].to_vec()).unwrap();
    assert!(head.starts_with("HTTP/1.1 200 OK\r\n"));
    assert!(head.contains("Content-Type: text/css\r\n"));
    assert!(head.contains("X-Test: 1\r\n"), "security headers are appended");
    assert!(head.contains("Content-Length: 6\r\n"));
    assert!(head.contains(&format!("ETag: \"{}\"\r\n", v.etag)));
    assert!(head.contains("Content-Encoding: gzip\r\n"));
    assert!(head.contains("Vary: Accept-Encoding\r\n"));
    assert!(head.contains("Cache-Control: no-store\r\n"));
    assert!(head.contains("Connection: keep-alive\r\n"));
    assert!(head.ends_with("\r\n\r\n"));
    // full_ka = header + body, and header_len is the split point.
    assert_eq!(&v.full_ka[v.header_len..], b"body{}");
    assert_eq!(v.encoding, Some("gzip"));
}

#[test]
fn identity_variant_omits_encoding_line() {
    let v = build_variant("text/plain", b"x", None, false, "no-store", "");
    let head = String::from_utf8(v.full_ka[..v.header_len].to_vec()).unwrap();
    assert!(!head.contains("Content-Encoding"));
    assert!(!head.contains("Vary"));
}

#[test]
fn small_files_are_not_compressed() {
    // Under the 64-byte floor: identity only, no Vary.
    let c = make_cached("/a.css", "text/css", b"body{}", &pol());
    assert!(c.gzip.is_none() && c.br.is_none());
    assert!(!c.vary);
}

#[test]
fn compressible_content_gets_both_encodings() {
    let data = "body { color: red; }\n".repeat(40); // ~840 bytes, compressible
    let c = make_cached("/big.css", "text/css", data.as_bytes(), &pol());
    assert!(c.gzip.is_some(), "expected gzip variant");
    assert!(c.br.is_some(), "expected brotli variant");
    assert!(c.vary);
    // Compressed forms are actually smaller than identity.
    assert!(c.gzip.as_ref().unwrap().full_ka.len() < c.identity.full_ka.len());
}

#[test]
fn incompressible_type_stays_identity_only() {
    let data = vec![0xABu8; 1000];
    let c = make_cached("/i.png", "image/png", &data, &pol());
    assert!(c.gzip.is_none() && c.br.is_none() && !c.vary);
}

#[test]
fn fingerprinted_file_is_pinned_immutable() {
    let c = make_cached("/app-deadbeef12.js", "text/javascript", b"console.log(1)", &pol());
    assert!(c.cache_control.contains("immutable"));
}

#[test]
fn tls_paths_lists_cert_and_key_for_every_site_in_order() {
    // Including the rootless (redirect-only) ones: they terminate TLS too,
    // so their material has to be watched for renewal like any other.
    let c = cfg(vec![
        site("a", Some("/wa"), "ca", "ka"),
        site("b", Some("/wb"), "cb", "kb"),
        site("w", None, "cr", "kr"),
    ]);
    assert_eq!(tls_paths(&c), vec!["ca", "ka", "cb", "kb", "cr", "kr"]);
}

#[test]
fn compression_off_stores_identity_only() {
    let p = with(|t| t.compression = false);
    let c = make_cached("/a.css", "text/css", &css(40), &p);
    assert!(c.gzip.is_none() && c.br.is_none(), "compression=off must skip both");
    assert!(!c.vary, "no Vary when there is nothing to negotiate");
}

#[test]
fn min_compress_bytes_gates_small_files() {
    let data = css(1); // 21 bytes
    // Default floor (64) leaves it uncompressed...
    let c = make_cached("/a.css", "text/css", &data, &Policy::new(Tuning::default()));
    assert!(c.gzip.is_none() && c.br.is_none());
    // ...a file just over a raised floor is compressed.
    let bigger = css(6); // 126 bytes, over a raised floor of 100
    let p = with(|t| t.min_compress_bytes = 100);
    let c2 = make_cached("/a.css", "text/css", &bigger, &p);
    assert!(c2.gzip.is_some() || c2.br.is_some(), "above the floor it should compress");
    let p3 = with(|t| t.min_compress_bytes = 1000);
    let c3 = make_cached("/a.css", "text/css", &bigger, &p3);
    assert!(c3.gzip.is_none() && c3.br.is_none(), "below a raised floor: identity only");
}

#[test]
fn per_encoding_size_ceilings_are_independent() {
    let data = css(40); // ~840 bytes
    // Brotli disabled by ceiling, gzip still applies.
    let p = with(|t| t.max_brotli_bytes = 0);
    let c = make_cached("/a.css", "text/css", &data, &p);
    assert!(c.br.is_none() && c.gzip.is_some(), "only brotli should be suppressed");
    // ...and the reverse.
    let p2 = with(|t| t.max_gzip_bytes = 0);
    let c2 = make_cached("/a.css", "text/css", &data, &p2);
    assert!(c2.gzip.is_none() && c2.br.is_some(), "only gzip should be suppressed");
}

#[test]
fn both_forms_are_made_at_the_levels_that_are_set() {
    let data = css(200);
    for (gzip_level, brotli_quality) in [(1, 0), (6, 5), (9, 11)] {
        let p = with(|t| {
            t.gzip_level = gzip_level;
            t.brotli_quality = brotli_quality;
        });
        let (gz, br) = compress_variants("text/css", &data, &p);
        assert_eq!(gz, Some(gzip_compress(&data, gzip_level)));
        assert_eq!(br, Some(brotli_compress(&data, brotli_quality)));
    }
}

#[test]
fn what_is_charged_is_what_is_held() {
    for p in [pol(), disk_policy()] {
        let mut b = CacheBuilder::new(1000, &p);
        for (url, data) in [("/a.css", css(50)), ("/b.css", css(1)), ("/c/d.bin", vec![7; 300])] {
            let cached = if p.storage == Storage::Memory {
                b.hold(url, &data)
            } else {
                Cached::Disk(b.stage(url, &data).entry)
            };
            assert!(b.take_in(url.to_string(), cached));
        }
        assert_eq!(b.total - 1000, cache_bytes(&b.cache));
        assert_eq!(b.cache.count(), 3);
    }
}

#[test]
fn a_status_page_ends_at_its_blank_line_and_states_what_it_leaves_out() {
    let e = ErrorPages::new("X-Site: yes\r\n");
    for page in [
        &e.bad_request,
        &e.not_found,
        &e.method_not_allowed,
        &e.request_timeout,
        &e.headers_too_large,
        &e.internal_error,
    ] {
        for keep_alive in [true, false] {
            let head = String::from_utf8(page.bytes(keep_alive, true).to_vec()).unwrap();
            let full = String::from_utf8(page.bytes(keep_alive, false).to_vec()).unwrap();
            assert_eq!(full.find("\r\n\r\n"), Some(head.len() - 4));
            assert!(full.starts_with(&head));
            let stated = format!("\r\nContent-Length: {}\r\n", full.len() - head.len());
            assert!(head.contains(&stated), "{head}");
        }
        let kept = String::from_utf8(page.bytes(true, false).to_vec()).unwrap();
        let closed = String::from_utf8(page.bytes(false, false).to_vec()).unwrap();
        assert_eq!(kept.replacen("Connection: keep-alive", "Connection: close", 1), closed);
    }
}

#[test]
fn brotli_quality_changes_the_output() {
    let data = css(200);
    let lo = brotli_compress(&data, 1);
    let hi = brotli_compress(&data, 11);
    assert!(hi.len() <= lo.len(), "q11 should be no larger than q1");
    assert_ne!(lo, hi, "quality must actually reach the encoder");
}

#[test]
fn gzip_level_changes_the_output() {
    let data = css(200);
    let lo = gzip_compress(&data, 1);
    let hi = gzip_compress(&data, 9);
    assert!(hi.len() <= lo.len(), "level 9 should be no larger than level 1");
}

#[test]
fn cache_control_max_ages_are_configurable() {
    let p = with(|t| {
        t.cache_max_age = 300;
        t.immutable_max_age = 604_800;
    });
    let plain = make_cached("/style.css", "text/css", b"x", &p);
    assert_eq!(&*plain.cache_control, "public, max-age=300, must-revalidate");
    let hashed = make_cached("/app-deadbeef12.js", "text/javascript", b"x", &p);
    assert_eq!(&*hashed.cache_control, "public, max-age=604800, immutable");
}

#[test]
fn build_cache_indexes_files_and_skips_hidden() {
    let mut total = 0usize;
    let cache = build_cache(
        &[
            ("index.html", b"<h1>home</h1>"),
            ("style.css", b"body{color:red}"),
            ("sub/page.html", b"<h1>sub</h1>"),
            (".well-known/security.txt", b"Contact: x"),
            (".hidden", b"secret"),
        ],
        &mut total,
        &pol(),
    )
    .expect("cache built");
    assert!(cache.get("/index.html").is_some());
    assert!(cache.get("/style.css").is_some());
    assert!(cache.get("/sub/page.html").is_some());
    assert!(cache.get("/.well-known/security.txt").is_some());
    assert!(cache.get("/.hidden").is_none(), "dotfiles must be skipped");
    assert!(total > 0);
    // cache_bytes reproduces exactly the accounting that was charged.
    assert_eq!(cache_bytes(&cache), total);
    assert_eq!(cache.count(), 4);
}

#[test]
fn tree_signature_is_stable_until_the_tree_changes() {
    let one = || vec![file("a.txt", 3, 100)];
    let sig1 = tree_signature(&one());
    assert_eq!(sig1, tree_signature(&one()), "stable with no change");
    let two = vec![file("a.txt", 3, 100), file("b.txt", 3, 101)];
    assert_ne!(sig1, tree_signature(&two), "new file must change signature");
}

#[test]
fn file_signature_tracks_content_changes() {
    let s1 = file_signature(&Some(Stamp { len: 5, mtime: 1 }));
    let s2 = file_signature(&Some(Stamp { len: 28, mtime: 1 }));
    assert_ne!(s1, s2);
    assert_ne!(s1, file_signature(&None));
}

#[test]
fn build_cache_skips_symlinks() {
    let p = pol();
    let b = CacheBuilder::new(0, &p);
    assert!(matches!(b.visit("", "real.txt", Kind::File, 4), Visit::Load(_)));
    assert!(
        matches!(b.visit("", "link.txt", Kind::Link, 4), Visit::Skip),
        "symlinks must never be followed"
    );
}

#[test]
fn tls_signature_is_order_sensitive_and_does_not_cancel() {
    let a = || Some(Stamp { len: 3, mtime: 7 });
    let b = || Some(Stamp { len: 13, mtime: 7 });
    // The same file twice must not cancel to the empty signature (folded in
    // order with a multiply, not XORed).
    assert_ne!(tls_signature(&vec![a()]), tls_signature(&vec![a(), a()]));
    // Order of distinct files matters.
    assert_ne!(tls_signature(&vec![a(), b()]), tls_signature(&vec![b(), a()]));
    // Stable for the same input.
    assert_eq!(tls_signature(&vec![a(), b()]), tls_signature(&vec![a(), b()]));
}

#[test]
fn max_file_size_skips_oversized_files() {
    let p = with(|t| t.max_file_size = 1000);
    let mut total = 0usize;
    let big = vec![b'x'; 5000];
    let cache = build_cache(&[("small.txt", b"tiny"), ("big.txt", &big)], &mut total, &p).unwrap();
    assert!(cache.get("/small.txt").is_some());
    assert!(cache.get("/big.txt").is_none(), "over max_file_size must be skipped");
    let b = CacheBuilder::new(0, &p);
    assert!(matches!(b.visit("", "big.txt", Kind::File, 5000), Visit::Oversized(u) if u == "/big.txt"));
    assert!(matches!(b.visit("/d", "ok.txt", Kind::File, 1000), Visit::Load(u) if u == "/d/ok.txt"));
}

#[test]
fn max_total_bytes_aborts_the_build() {
    let body = vec![b'x'; 2000];
    let names: Vec<String> = (0..10).map(|i| format!("f{i}.txt")).collect();
    let files: Vec<(&str, &[u8])> = names.iter().map(|n| (n.as_str(), body.as_slice())).collect();
    let p = with(|t| t.max_total_bytes = 4000);
    let mut total = 0usize;
    assert!(
        build_cache(&files, &mut total, &p).is_none(),
        "exceeding max_total_bytes must abort the build, not truncate the cache"
    );
}

#[test]
fn precompressed_sidecars_do_not_collide_with_generated_ones() {
    // A docroot that ships `style.css` alongside a real `style.css.gz`, the
    // normal output of a gzip_static-style build.
    let css = "body { color: red; }\n".repeat(40);
    let p = disk_policy();
    let b = CacheBuilder::new(0, &p);
    let css_plan = b.stage("/style.css", css.as_bytes());
    let side_plan = b.stage("/style.css.gz", b"NOT-REALLY-GZIP");
    let gz = css_plan.entry.gzip.as_ref().expect("css is compressible");
    assert_ne!(gz.path, side_plan.entry.identity.path, "distinct URLs, distinct files");

    // Every variant's declared length must match the bytes that are written, or
    // the response under-delivers Content-Length on a live connection.
    assert_eq!(css_plan.entry.identity.len, css.len() as u64);
    assert_eq!(gz.len, css_plan.gzip.as_ref().unwrap().len() as u64);
    assert_eq!(side_plan.entry.identity.len, b"NOT-REALLY-GZIP".len() as u64);
}

#[test]
fn disk_build_snapshots_bodies_and_keeps_only_headers_in_ram() {
    // A big body so the bodies-excluded RAM saving dominates the fixed
    // per-variant header cost.
    let css = "body { color: red; }\n".repeat(4000); // ~84 KB, compressible
    let files: [(&str, &[u8]); 2] = [("index.html", b"<h1>home</h1>"), ("style.css", css.as_bytes())];
    let mut disk_total = 0usize;
    let sc = build_cache(&files, &mut disk_total, &disk_policy()).expect("built");
    let e = disk_entry(&sc, "/style.css");
    // Identity plus gzip and brotli sidecars each have a place of their own.
    assert_eq!(e.identity.path, "identity/style.css");
    assert_eq!(e.gzip.as_ref().unwrap().path, "gzip/style.css");
    assert_eq!(e.br.as_ref().unwrap().path, "br/style.css");
    // The identity length matches the source and the header advertises it.
    assert_eq!(e.identity.len, css.len() as u64);
    let hdr = String::from_utf8(e.identity.header_ka.clone()).unwrap();
    assert!(hdr.contains(&format!("Content-Length: {}", css.len())), "{hdr}");
    assert!(hdr.contains("Vary: Accept-Encoding"), "{hdr}");
    assert!(hdr.ends_with("\r\n\r\n"));
    // Accounting counts exactly the retained headers...
    assert_eq!(cache_bytes(&sc), disk_total);
    // ...and holds no bodies in RAM: the same tree in Memory mode charges the
    // bodies too, so disk RAM is a fraction of memory RAM.
    let mut mem_total = 0usize;
    build_cache(&files, &mut mem_total, &pol()).unwrap();
    assert!(
        disk_total * 4 < mem_total,
        "disk RAM ({disk_total}) must be far below memory RAM ({mem_total})"
    );
}

#[test]
fn disk_and_memory_headers_are_byte_identical() {
    // Same file, same policy but different backends -> identical headers
    // (Content-Length, ETag, Vary, Cache-Control, security headers).
    let data = "body { color: red; }\n".repeat(20);
    let sc = build_cache(&[("style.css", data.as_bytes())], &mut 0, &disk_policy()).unwrap();
    let disk = disk_entry(&sc, "/style.css");
    let mem = make_cached("/style.css", "text/css; charset=utf-8", data.as_bytes(), &pol());
    assert_eq!(disk.identity.header_ka, mem.identity.full_ka[..mem.identity.header_len]);
    assert_eq!(disk.identity.etag, mem.identity.etag);
}

// ---- exact values and laws ----

#[test]
fn an_etag_is_the_length_and_the_fnv_hash() {
    assert_eq!(etag_for(b""), "0-cbf29ce484222325");
    assert_eq!(etag_for(b"a"), "1-af63dc4c8601ec8c");
    assert_eq!(mix(0xcbf2_9ce4_8422_2325, 0x61), 0xaf63_dc4c_8601_ec8c);
}

#[test]
fn a_response_head_is_exact() {
    let v = build_variant("text/css", b"body{}", Some("br"), true, "no-store", "X-Test: 1\r\n");
    assert_eq!(
        String::from_utf8(v.full_ka.clone()).unwrap(),
        format!(
            "HTTP/1.1 200 OK\r\nContent-Type: text/css\r\nContent-Length: 6\r\nETag: \"{}\"\r\n\
             Content-Encoding: br\r\nVary: Accept-Encoding\r\nCache-Control: no-store\r\n\
             Connection: keep-alive\r\nX-Test: 1\r\n\r\nbody{{}}",
            etag_for(b"body{}")
        )
    );
}

#[test]
fn the_default_status_pages_take_5690_bytes() {
    let pages = ErrorPages::new(&HeaderConfig::default().render());
    assert_eq!(pages.retained_bytes(), 5690);
}

#[test]
fn a_compressed_body_decodes_to_the_file() {
    let data = css(200);
    let mut out = Vec::new();
    let gz = gzip_compress(&data, 6);
    std::io::Read::read_to_end(&mut flate2::read::GzDecoder::new(gz.as_slice()), &mut out).unwrap();
    assert_eq!(out, data);
    let mut out = Vec::new();
    let br = brotli_compress(&data, 5);
    brotli::BrotliDecompress(&mut br.as_slice(), &mut out).unwrap();
    assert_eq!(out, data);
    assert!(gz.len() < data.len() && br.len() < data.len());
    // Nothing to compress is still a stream.
    let mut out = Vec::new();
    brotli::BrotliDecompress(&mut brotli_compress(b"", 11).as_slice(), &mut out).unwrap();
    assert_eq!(out, b"");
}

#[test]
fn one_compressor_run_gives_the_same_gzip_stream() {
    assert_eq!(gzip_compress(&css(30), 9), gzip_compress(&css(30), 9));
}

#[test]
fn a_variant_that_does_not_shrink_is_dropped() {
    // Over the floor, but nothing in it repeats.
    let noise: Vec<u8> = (0u32..80).map(|i| (i.wrapping_mul(2_654_435_761) >> 24) as u8).collect();
    let c = make_cached("/n.css", "text/css", &noise, &pol());
    assert!(c.gzip.is_none() && c.br.is_none() && !c.vary);
}

#[test]
fn hidden_directories_are_not_walked() {
    let p = pol();
    let b = CacheBuilder::new(0, &p);
    assert!(matches!(b.visit("", ".git", Kind::Dir, 0), Visit::Skip));
    assert!(matches!(b.visit("", ".well-known", Kind::Dir, 0), Visit::Descend(u) if u == "/.well-known"));
    assert!(matches!(b.visit("", "fifo", Kind::Other, 0), Visit::Skip));
    assert!(matches!(b.visit("", "gone", Kind::Unknown, 0), Visit::Skip));
}

#[test]
fn the_budget_is_checked_before_and_after_reading() {
    let p = with(|t| t.max_total_bytes = 1000);
    let mut b = CacheBuilder::new(990, &p);
    assert!(matches!(b.visit("", "a.txt", Kind::File, 11), Visit::OverBudget(u) if u == "/a.txt"));
    // Its bytes would fit, its headers do not.
    assert!(matches!(b.visit("", "a.txt", Kind::File, 5), Visit::Load(_)));
    let cached = b.hold("/a.txt", b"12345");
    assert!(!b.take_in("/a.txt".to_string(), cached));
    assert_eq!((b.total, b.cache.count()), (990, 0));
}

#[test]
fn a_replaced_entry_counts_once() {
    let mut cache = SiteCache::empty();
    let p = pol();
    let entry = |data: &[u8]| Cached::Mem(make_cached("/a", "text/plain", data, &p));
    cache.insert("/a".to_string(), entry(b"one"));
    cache.insert("/a".to_string(), entry(b"longer"));
    assert_eq!(cache.count(), 1);
    assert_eq!(cache_bytes(&cache), entry(b"longer").retained_bytes());
    assert_eq!(cache_bytes(&cache), make_cached("/a", "text/plain", b"longer", &p).identity.full_ka.len());
}

#[test]
fn snapshot_paths_keep_encodings_apart() {
    assert_eq!(snapshot_path("gzip", "/a/b.css"), "gzip/a/b.css");
    let plan = make_disk_entry("/a.css", "text/css", &css(40), &disk_policy());
    assert_eq!(plan.entry.identity.path, "identity/a.css");
    assert!(plan.entry.vary && plan.gzip.is_some() && plan.br.is_some());
    assert_eq!(plan.entry.br.unwrap().len, plan.br.unwrap().len() as u64);
}

#[test]
fn the_order_of_a_listing_does_not_show() {
    let ab = order_nodes(vec![file("a", 1, 1), file("b", 2, 2)]);
    let ba = order_nodes(vec![file("b", 2, 2), file("a", 1, 1)]);
    assert_eq!(tree_signature(&ab), tree_signature(&ba));
    assert!(is_before(b"a", b"b") && is_before(b"a", b"ab") && !is_before(b"b", b"a"));
}

#[test]
fn a_tree_is_hashed_by_name_size_and_time() {
    let sig = |n: Node| tree_signature(&vec![n]);
    assert_ne!(sig(file("a", 1, 1)), sig(file("b", 1, 1)));
    assert_ne!(sig(file("a", 1, 1)), sig(file("a", 2, 1)));
    assert_ne!(sig(file("a", 1, 1)), sig(file("a", 1, 2)));
    let named = |name: &str, entry: Entry| Node {
        raw: name.as_bytes().to_vec(),
        name: name.to_string(),
        entry,
    };
    // What is never served does not count.
    assert_eq!(sig(named(".git", Entry::Dir(vec![file("x", 1, 1)]))), tree_signature(&vec![]));
    assert_eq!(sig(named("link", Entry::Ignored)), tree_signature(&vec![]));
    // An empty directory is not nothing.
    assert_ne!(sig(named("d", Entry::Dir(vec![]))), tree_signature(&vec![]));
    assert_eq!(dir_signature(&vec![], 7), 7);
}

#[test]
fn sample_skips_a_site_that_has_no_tree() {
    // A redirect-only site has no root, so there is nothing to hash, and
    // nothing for the watcher to try (and fail) to rebuild every tick.
    let c = cfg(vec![site("w", None, "cr", "kr")]);
    assert!(root_links(&c).is_empty());
}

#[test]
fn the_roots_of_a_configuration_are_listed() {
    let c = cfg(vec![site("a", Some("/wa"), "c", "k"), site("w", None, "c", "k"), site("b", Some("/wb"), "c", "k")]);
    assert_eq!(root_links(&c), vec!["/wa", "/wb"]);
    assert_eq!(
        root_links_of("listen = h:1\nsite a {\nroot = /r\ncert = /c\nkey = /k\n}\n"),
        Some(vec!["/r".to_string()])
    );
    assert_eq!(root_links_of("nonsense"), None);
}

#[test]
fn one_url_is_one_file() {
    let p = Policy::new(Tuning::default());
    let b = CacheBuilder::new(0, &p);
    let mut urls = Vec::new();
    for (prefix, name) in [("", "a"), ("", "ab"), ("/a", "b"), ("/a", "a"), ("/a/a", "b"), ("/ab", "a")] {
        match b.visit(prefix, name, Kind::File, 1) {
            Visit::Load(url) => urls.push(url),
            _ => panic!("{prefix}/{name} is loaded"),
        }
    }
    assert_eq!(urls, ["/a", "/ab", "/a/b", "/a/a", "/a/a/b", "/ab/a"]);
}
