//! Configuration files: what they mean and what is said of the ones that mean
//! nothing.
use bare_server::config::{
    apply_shared, at, explain_redirect_line, explain_site_line, is_site_only, join_hosts, load_config,
    parse_bool,
    parse_config, parse_count, parse_deadline_secs, parse_header_value, parse_ranged, parse_secs,
    parse_size, server_only_reason, Config, HeaderConfig, Storage, Tuning,
};
use bare_server::redirects::{expand, loops_forever, Redirects};

fn minimal() -> &'static str {
    "listen = [::]:443\nsite example.com {\n root = /var/www\n cert = /c.pem\n key = /k.pem\n}\n"
}

/// A config with `body` spliced in at the top level, on top of one valid site.
fn with(body: &str) -> Result<Config, String> {
    parse_config(&format!(
        "listen = h:443\n{body}\nsite a.com {{\n root = /w\n cert = /c\n key = /k\n}}\n"
    ))
}

/// A config whose single site block contains `body`.
fn site_with(body: &str) -> Result<Config, String> {
    parse_config(&format!(
        "listen = h:443\nsite a.com {{\n root = /w\n cert = /c\n key = /k\n{body}\n}}\n"
    ))
}

// ---- basic shape ----

#[test]
fn parses_a_minimal_config() {
    let c = parse_config(minimal()).unwrap();
    assert_eq!(c.host, "[::]");
    assert_eq!(c.port, "443");
    assert!(c.http_host.is_empty()); // no listen_http -> disabled sentinel
    assert_eq!(c.sites.len(), 1);
    assert_eq!(c.sites[0].hosts, vec!["example.com"]);
    assert_eq!(c.sites[0].root.as_deref(), Some("/var/www"));
    assert_eq!(c.sites[0].cert, "/c.pem");
    assert_eq!(c.sites[0].key, "/k.pem");
    assert!(c.sites[0].redirects.is_empty());
}

#[test]
fn ipv6_listen_keeps_the_bracketed_host() {
    // rsplit on ':' must not shear the address literal.
    let c = with("").unwrap();
    assert_eq!(c.host, "h");
    let c = parse_config(&minimal().replace("[::]:443", "[2001:db8::1]:443")).unwrap();
    assert_eq!(c.host, "[2001:db8::1]");
    assert_eq!(c.port, "443");
}

#[test]
fn comments_and_blank_lines_are_ignored() {
    let text = "# a comment\n\n   \nlisten = 0.0.0.0:443\n# another\n\
                site a.com {  # trailing comment\n root = /w\n cert = /c\n key = /k\n}\n";
    let c = parse_config(text).unwrap();
    assert_eq!(c.host, "0.0.0.0");
    assert_eq!(c.sites[0].hosts, vec!["a.com"]);
}

#[test]
fn a_hash_inside_a_value_is_not_a_comment() {
    // Only a `#` at line start or after whitespace opens a comment, so a CSP
    // hash source or a URL fragment survives intact.
    let c = site_with("csp = default-src 'self' 'sha256-abc#def'").unwrap();
    assert_eq!(c.sites[0].headers.csp, "default-src 'self' 'sha256-abc#def'");
    let c = site_with("redirect /a -> /b#frag").unwrap();
    assert_eq!(c.sites[0].redirects.resolve("/a").unwrap(), "/b#frag");
}

#[test]
fn multi_host_site_lowercases_and_splits() {
    let c = parse_config("listen = h:443\nsite A.com, WWW.a.com {\n root=/w\n cert=/c\n key=/k\n}\n")
        .unwrap();
    assert_eq!(c.sites[0].hosts, vec!["a.com", "www.a.com"]);
}

#[test]
fn listen_http_is_parsed() {
    let c = with("listen_http = 0.0.0.0:80").unwrap();
    assert_eq!(c.http_host, "0.0.0.0");
    assert_eq!(c.http_port, "80");
}

// ---- structural errors ----

#[test]
fn missing_listen_is_rejected() {
    let e = parse_config("site a.com {\n root=/w\n cert=/c\n key=/k\n}\n").err().unwrap();
    assert!(e.contains("listen"), "{e}");
}

#[test]
fn no_site_is_rejected() {
    let e = parse_config("listen = h:443\n").err().unwrap();
    assert!(e.contains("site"), "{e}");
}

#[test]
fn empty_host_in_listen_http_is_rejected() {
    // `listen_http = :80` must not silently disable the plain listener.
    let e = with("listen_http = :80").err().unwrap();
    assert!(e.contains("listen_http"), "{e}");
}

#[test]
fn listen_without_port_is_rejected() {
    assert!(with("").is_ok());
    assert!(parse_config("listen = hostonly\nsite a.com {\n root=/w\n cert=/c\n key=/k\n}\n").is_err());
}

#[test]
fn malformed_line_without_equals_is_rejected() {
    let e = with("this is not valid").err().unwrap();
    assert!(e.contains("malformed"), "{e}");
}

#[test]
fn unknown_key_is_rejected() {
    let e = with("bogus = x").err().unwrap();
    assert!(e.contains("unknown config key"), "{e}");
    let e = site_with("bogus = x").err().unwrap();
    assert!(e.contains("unknown site setting"), "{e}");
}

#[test]
fn errors_carry_the_line_number() {
    let e = with("\n\nbogus = x").err().unwrap();
    assert!(e.starts_with("config line 4:"), "{e}");
}

#[test]
fn an_unclosed_or_stray_brace_is_rejected() {
    let e = parse_config("listen = h:443\nsite a.com {\n root=/w\n cert=/c\n key=/k\n")
        .err()
        .unwrap();
    assert!(e.contains("unclosed"), "{e}");
    let e = parse_config("listen = h:443\n}\n").err().unwrap();
    assert!(e.contains("stray"), "{e}");
}

#[test]
fn site_blocks_cannot_nest() {
    let e = parse_config("listen = h:443\nsite a.com {\nsite b.com {\n}\n}\n").err().unwrap();
    assert!(e.contains("nest"), "{e}");
}

#[test]
fn a_site_without_a_brace_is_rejected() {
    let e = parse_config("listen = h:443\nsite a.com\n").err().unwrap();
    assert!(e.contains("open a block"), "{e}");
}

#[test]
fn a_site_needs_a_cert_and_key() {
    let e = parse_config("listen = h:443\nsite a.com {\n root = /w\n key = /k\n}\n").err().unwrap();
    assert!(e.contains("missing 'cert'"), "{e}");
    let e = parse_config("listen = h:443\nsite a.com {\n root = /w\n cert = /c\n}\n").err().unwrap();
    assert!(e.contains("missing 'key'"), "{e}");
}

#[test]
fn a_site_with_neither_root_nor_rules_is_rejected() {
    // It could only ever 404, so it is a mistake rather than a valid vhost.
    let e = parse_config("listen = h:443\nsite a.com {\n cert = /c\n key = /k\n}\n").err().unwrap();
    assert!(e.contains("root"), "{e}");
}

#[test]
fn a_rootless_site_with_rules_is_a_redirect_only_host() {
    let c = parse_config(
        "listen = h:443\nsite www.a.com {\n cert=/c\n key=/k\n redirect * -> https://a.com$0\n}\n",
    )
    .unwrap();
    assert!(c.sites[0].root.is_none());
    assert_eq!(
        c.sites[0].redirects.resolve("/x/y").unwrap(),
        "https://a.com/x/y"
    );
}

// ---- helpful errors for the wrong syntax ----

#[test]
fn a_site_written_as_a_key_value_explains_the_block_form() {
    let e = parse_config("listen = h:443\nsite = a.com /w /c /k\n").err().unwrap();
    assert!(e.contains("a site is a block"), "{e}");
    // The operator's own values, rewritten.
    assert!(e.contains("site a.com {"), "{e}");
    assert!(e.contains("root = /w"), "{e}");
    assert!(e.contains("cert = /c"), "{e}");
    assert!(e.contains("key  = /k"), "{e}");
    // allow_http maps to the explicit setting, not silence.
    let e = parse_config("listen = h:443\nsite = a.com /w /c /k allow_http\n").err().unwrap();
    assert!(e.contains("force_ssl = off"), "{e}");
}

#[test]
fn a_redirect_written_as_a_key_value_explains_the_rootless_block() {
    let e = with("redirect = www.a.com a.com /rc /rk").err().unwrap();
    assert!(e.contains("a site block with no root"), "{e}");
    assert!(e.contains("site www.a.com {"), "{e}");
    assert!(e.contains("redirect * -> https://a.com$0"), "{e}");
}

#[test]
fn a_misplaced_directive_says_where_it_belongs() {
    let e = with("root = /w").err().unwrap();
    assert!(e.contains("belongs inside a site block"), "{e}");
    let e = site_with("max_total_bytes = 1G").err().unwrap();
    assert!(e.contains("server-level"), "{e}");
    assert!(e.contains("shared"), "{e}");
    let e = site_with("listen = h:443").err().unwrap();
    assert!(e.contains("server-level"), "{e}");
}

// ---- force_ssl ----

#[test]
fn force_ssl_defaults_to_on_and_can_be_turned_off() {
    assert!(with("").unwrap().sites[0].force_ssl, "secure default");
    assert!(site_with("force_ssl = on").unwrap().sites[0].force_ssl);
    assert!(!site_with("force_ssl = off").unwrap().sites[0].force_ssl);
    assert!(site_with("force_ssl = maybe").is_err());
}

#[test]
fn force_ssl_is_per_site() {
    let c = parse_config(
        "listen = h:443\n\
         site a.com {\n root=/wa\n cert=/c\n key=/k\n force_ssl = on\n}\n\
         site b.com {\n root=/wb\n cert=/c\n key=/k\n force_ssl = off\n}\n",
    )
    .unwrap();
    assert!(c.sites[0].force_ssl);
    assert!(!c.sites[1].force_ssl);
}

#[test]
fn canonical_urls_defaults_off_and_is_per_site() {
    assert!(!with("").unwrap().sites[0].canonical_urls, "off by default");
    assert!(site_with("canonical_urls = on").unwrap().sites[0].canonical_urls);
    assert!(!site_with("canonical_urls = off").unwrap().sites[0].canonical_urls);
    assert!(site_with("canonical_urls = maybe").is_err());
    // Site-only: at the top level it says where it belongs.
    let e = with("canonical_urls = on").err().unwrap();
    assert!(e.contains("belongs inside a site block"), "{e}");
}

// ---- redirect rules ----

#[test]
fn an_exact_rule_matches_only_that_path() {
    let c = site_with("redirect /old -> /new").unwrap();
    let r = &c.sites[0].redirects;
    assert_eq!(r.resolve("/old").unwrap(), "/new");
    assert!(r.resolve("/old/").is_none());
    assert!(r.resolve("/older").is_none());
    assert!(r.resolve("/").is_none());
}

#[test]
fn a_prefix_rule_captures_the_remainder_as_dollar_one() {
    let c = site_with("redirect /docs/* -> /help/$1").unwrap();
    let r = &c.sites[0].redirects;
    assert_eq!(r.resolve("/docs/a/b").unwrap(), "/help/a/b");
    assert_eq!(r.resolve("/docs/").unwrap(), "/help/"); // empty remainder
    assert!(r.resolve("/docs").is_none(), "the prefix includes its slash");
}

#[test]
fn dollar_zero_is_the_whole_path() {
    let c = site_with("redirect /a/* -> https://x.com$0").unwrap();
    assert_eq!(
        c.sites[0].redirects.resolve("/a/b").unwrap(),
        "https://x.com/a/b"
    );
}

#[test]
fn the_catch_all_matches_anything_unmatched() {
    let c = site_with("redirect /keep -> /kept\nredirect * -> https://x.com$0").unwrap();
    let r = &c.sites[0].redirects;
    assert_eq!(r.resolve("/keep").unwrap(), "/kept");
    assert_eq!(r.resolve("/anything/else").unwrap(), "https://x.com/anything/else");
    assert_eq!(r.resolve("/").unwrap(), "https://x.com/");
}

#[test]
fn the_longest_prefix_wins_regardless_of_file_order() {
    // Least specific listed first: the sort, not the order, must decide.
    let c = site_with("redirect /docs/* -> /a/$1\nredirect /docs/api/* -> /b/$1").unwrap();
    let r = &c.sites[0].redirects;
    assert_eq!(r.resolve("/docs/api/x").unwrap(), "/b/x");
    assert_eq!(r.resolve("/docs/other").unwrap(), "/a/other");
}

#[test]
fn exact_beats_prefix_beats_catch_all() {
    let c = site_with(
        "redirect * -> /all\nredirect /a/* -> /pre/$1\nredirect /a/exact -> /hit",
    )
    .unwrap();
    let r = &c.sites[0].redirects;
    assert_eq!(r.resolve("/a/exact").unwrap(), "/hit");
    assert_eq!(r.resolve("/a/other").unwrap(), "/pre/other");
    assert_eq!(r.resolve("/z").unwrap(), "/all");
}

#[test]
fn a_double_dollar_escapes_a_literal_dollar() {
    let c = site_with("redirect /a -> /b$$0").unwrap();
    assert_eq!(c.sites[0].redirects.resolve("/a").unwrap(), "/b$0");
}

#[test]
fn an_escaped_dollar_names_no_capture() {
    let c = site_with("redirect /a -> /b$$1").unwrap();
    assert_eq!(c.sites[0].redirects.resolve("/a").unwrap(), "/b$1");
    let c = site_with("redirect /a -> /b$$$$1$0").unwrap();
    assert_eq!(c.sites[0].redirects.resolve("/a").unwrap(), "/b$$1/a");
    // The second of three dollars closes the escape, so the third opens a capture.
    for target in ["/b$1", "/b$$$1", "/$x$1"] {
        let e = site_with(&format!("redirect /a -> {target}")).err().unwrap();
        assert!(e.contains("$1 has no value in the exact rule '/a'"), "{e}");
    }
}

#[test]
fn a_refused_rule_leaves_the_others_as_they_were() {
    let mut r = Redirects::default();
    assert_eq!(r.push("/a", "/b"), Ok(()));
    assert_eq!(r.push("/a", "/c"), Err("redirect: duplicate pattern: /a".to_string()));
    assert_eq!(r.resolve("/a").unwrap(), "/b");
    assert_eq!(r.push("/d/*", "/e/$1"), Ok(()));
    assert_eq!(r.push("/d/*", "/f/$1"), Err("redirect: duplicate pattern: /d/*".to_string()));
    assert_eq!(r.resolve("/d/x").unwrap(), "/e/x");
}

#[test]
fn a_lone_dollar_in_a_target_is_literal() {
    let c = site_with("redirect /a -> /b?x=$foo").unwrap();
    assert_eq!(c.sites[0].redirects.resolve("/a").unwrap(), "/b?x=$foo");
}

#[test]
fn redirects_are_only_valid_inside_a_site_block() {
    let e = with("redirect /a -> /b").err().unwrap();
    assert!(e.contains("inside a site block"), "{e}");
}

#[test]
fn malformed_redirect_rules_are_rejected() {
    let bad = |body: &str| site_with(body).is_err();
    assert!(bad("redirect /a /b"), "missing ->");
    assert!(bad("redirect -> /b"), "empty pattern");
    assert!(bad("redirect /a ->"), "empty target");
    assert!(bad("redirect a -> /b"), "pattern must be rooted or '*'");
    assert!(bad("redirect /a -> b"), "target must be rooted or absolute");
    assert!(bad("redirect /a -> example.com/b"), "scheme-less host");
    assert!(bad("redirect /a/*/b -> /c"), "'*' only as a trailing segment");
    assert!(bad("redirect /a* -> /c"), "'*' only after a '/'");
    assert!(bad("redirect /a -> /b$2"), "there is only one capture");
    assert!(bad("redirect /a -> /b$1"), "$1 is empty in an exact rule");
}

#[test]
fn a_star_not_at_a_segment_boundary_is_rejected() {
    // `/a*` would have to mean "prefix /a", which reads as if it also matched
    // `/abc`; only `/a/*` is accepted so the meaning is never ambiguous.
    let e = site_with("redirect /a* -> /c").err().unwrap();
    assert!(e.contains("trailing /prefix/*"), "{e}");
}

#[test]
fn self_redirects_are_rejected() {
    // Each of these would 301 a path to itself, forever. The `$0` spellings
    // are the same loop written differently, which a textual comparison of
    // target against pattern does not catch.
    for rule in [
        "redirect /a -> /a",
        "redirect /a/* -> /a/$1",
        "redirect * -> $0",
        "redirect /a -> $0",
        "redirect /a/* -> $0",
        // The next hop drops the fragment and the rule ignores the query, so
        // both of these come straight back to the same path.
        "redirect /a -> $0#top",
        "redirect /a -> $0?v=1",
    ] {
        let e = site_with(rule).err().unwrap_or_else(|| panic!("accepted: {rule}"));
        assert!(e.contains("itself"), "{rule}: {e}");
    }
    // `$1` alone is rejected before the loop check even runs: it expands to a
    // bare remainder, which would be a relative Location.
    assert!(site_with("redirect * -> $1").is_err());
}

#[test]
fn a_rule_that_actually_moves_the_path_is_still_accepted() {
    // The loop check must not swallow legitimate rules that happen to use $0.
    for rule in [
        "redirect /a -> /b",
        "redirect /a -> https://example.com$0",
        "redirect /old/* -> /new/$1",
        "redirect * -> https://example.com$0",
        "redirect /a -> /b#top",
    ] {
        assert!(site_with(rule).is_ok(), "wrongly rejected: {rule}");
    }
}

#[test]
fn duplicate_patterns_are_rejected() {
    assert!(site_with("redirect /a -> /b\nredirect /a -> /c").is_err());
    assert!(site_with("redirect /a/* -> /b/$1\nredirect /a/* -> /c/$1").is_err());
    assert!(site_with("redirect * -> /b\nredirect * -> /c").is_err());
}

#[test]
fn a_control_byte_in_a_redirect_target_is_rejected() {
    let e = site_with("redirect /a -> /b\rX").err().unwrap();
    assert!(e.contains("control characters"), "{e}");
}

#[test]
fn rules_are_per_site() {
    let c = parse_config(
        "listen = h:443\n\
         site a.com {\n root=/w\n cert=/c\n key=/k\n redirect /x -> /a\n}\n\
         site b.com {\n root=/w\n cert=/c\n key=/k\n}\n",
    )
    .unwrap();
    assert_eq!(c.sites[0].redirects.resolve("/x").unwrap(), "/a");
    assert!(c.sites[1].redirects.resolve("/x").is_none());
}

// ---- inherited / overridden settings ----

#[test]
fn a_site_inherits_the_server_level_defaults() {
    let c = parse_config(
        "listen = h:443\nbrotli_quality = 4\ncsp = default-src 'self'\n\
         site a.com {\n root=/w\n cert=/c\n key=/k\n}\n",
    )
    .unwrap();
    assert_eq!(c.sites[0].tuning.brotli_quality, 4);
    assert_eq!(c.sites[0].headers.csp, "default-src 'self'");
}

#[test]
fn a_site_overrides_only_what_it_names() {
    let c = parse_config(
        "listen = h:443\nbrotli_quality = 4\ngzip_level = 3\n\
         site a.com {\n root=/w\n cert=/c\n key=/k\n brotli_quality = 9\n}\n",
    )
    .unwrap();
    assert_eq!(c.sites[0].tuning.brotli_quality, 9); // overridden
    assert_eq!(c.sites[0].tuning.gzip_level, 3); // inherited
}

#[test]
fn a_top_level_default_applies_to_blocks_written_above_it() {
    // Deferred override resolution is what makes this order-independent.
    let c = parse_config(
        "listen = h:443\n\
         site a.com {\n root=/w\n cert=/c\n key=/k\n}\n\
         csp = default-src 'self'\n",
    )
    .unwrap();
    assert_eq!(c.sites[0].headers.csp, "default-src 'self'");
}

#[test]
fn sites_do_not_leak_settings_into_each_other() {
    let c = parse_config(
        "listen = h:443\n\
         site a.com {\n root=/w\n cert=/c\n key=/k\n cache_max_age = 300\n}\n\
         site b.com {\n root=/w\n cert=/c\n key=/k\n}\n",
    )
    .unwrap();
    assert_eq!(c.sites[0].tuning.cache_max_age, 300);
    assert_eq!(c.sites[1].tuning.cache_max_age, 0);
}

#[test]
fn every_shared_setting_is_overridable_per_site() {
    let c = site_with(
        "compression = off\n\
         brotli_quality = 5\n\
         gzip_level = 1\n\
         min_compress_bytes = 256\n\
         max_brotli_bytes = 2M\n\
         max_gzip_bytes = 16M\n\
         max_file_size = 32M\n\
         cache_max_age = 300\n\
         immutable_max_age = 604800\n\
         hsts_max_age = 300\n\
         hsts_include_subdomains = off\n\
         hsts_preload = no\n\
         csp = default-src 'self'",
    )
    .unwrap();
    let s = &c.sites[0];
    assert!(!s.tuning.compression);
    assert_eq!(s.tuning.brotli_quality, 5);
    assert_eq!(s.tuning.gzip_level, 1);
    assert_eq!(s.tuning.min_compress_bytes, 256);
    assert_eq!(s.tuning.max_brotli_bytes, 2 << 20);
    assert_eq!(s.tuning.max_gzip_bytes, 16 << 20);
    assert_eq!(s.tuning.max_file_size, 32 << 20);
    assert_eq!(s.tuning.cache_max_age, 300);
    assert_eq!(s.tuning.immutable_max_age, 604_800);
    assert_eq!(s.headers.hsts_max_age, 300);
    assert!(!s.headers.hsts_include_subdomains);
    assert!(!s.headers.hsts_preload);
    assert_eq!(s.headers.csp, "default-src 'self'");
}

#[test]
fn a_bad_value_in_a_site_block_reports_that_line() {
    let e = site_with("brotli_quality = 12").err().unwrap();
    assert!(e.contains("config line"), "{e}");
    assert!(e.contains("brotli_quality"), "{e}");
}

// ---- defaults ----

#[test]
fn defaults_reproduce_the_previous_behaviour() {
    let c = parse_config(minimal()).unwrap();
    let t = c.sites[0].tuning;
    assert!(t.compression);
    assert_eq!(t.brotli_quality, 11);
    assert_eq!(t.gzip_level, 9);
    assert_eq!(t.min_compress_bytes, 64);
    assert_eq!(t.max_brotli_bytes, 8 << 20);
    assert_eq!(t.max_gzip_bytes, 64 << 20);
    assert_eq!(t.max_file_size, 256 << 20);
    assert_eq!(t.max_total_bytes, 2 << 30);
    assert_eq!(t.cache_max_age, 0);
    assert_eq!(t.immutable_max_age, 31_536_000);
    let h = &c.sites[0].headers;
    assert_eq!(h.hsts_max_age, 63_072_000);
    assert!(h.hsts_include_subdomains);
    assert!(h.hsts_preload);
    assert!(h.csp.is_empty());
    assert_eq!(c.max_conns_per_ip, 64);
    assert_eq!(c.max_response_secs, 0);
    assert!(c.sites[0].force_ssl);
    assert_eq!(c.storage, Storage::Memory);
    assert!(c.disk_cache.is_none());
}

#[test]
fn server_level_directives_are_parsed() {
    let c = with("max_total_bytes = 1G\nmax_conns_per_ip = 8\nmax_response_secs = 120").unwrap();
    assert_eq!(c.sites[0].tuning.max_total_bytes, 1 << 30, "sites share the budget");
    assert_eq!(c.max_conns_per_ip, 8);
    assert_eq!(c.max_response_secs, 120);
}

#[test]
fn an_absurd_duration_is_rejected_rather_than_panicking_later() {
    // `Instant + Duration` panics on overflow, and DeadlineIo builds one per
    // connection, so an unbounded value here would turn every request into a
    // worker-thread panic while the process kept reporting healthy.
    let e = with(&format!("max_response_secs = {}", u64::MAX)).err().unwrap();
    assert!(e.contains("at most"), "{e}");
    assert!(with("max_response_secs = 86400").is_ok(), "one day is still accepted");
}

#[test]
fn a_control_byte_in_csp_is_rejected() {
    let e = with("csp = default-src\rself").err().unwrap();
    assert!(e.contains("control characters"), "{e}");
}

#[test]
fn storage_defaults_to_memory_and_disk_requires_a_cache_dir() {
    let e = with("storage = disk").err().unwrap();
    assert!(e.contains("disk_cache"), "{e}");
    let c = with("storage = disk\ndisk_cache = /var/cache/bs").unwrap();
    assert_eq!(c.storage, Storage::Disk);
    assert_eq!(c.disk_cache.as_deref(), Some("/var/cache/bs"));
}

#[test]
fn an_unknown_storage_value_is_rejected() {
    assert!(with("storage = ssd").is_err());
}

#[test]
fn default_header_render_emits_the_documented_block() {
    let expected = "X-Content-Type-Options: nosniff\r\n\
                    X-Frame-Options: SAMEORIGIN\r\n\
                    Referrer-Policy: strict-origin-when-cross-origin\r\n\
                    Permissions-Policy: camera=(), microphone=(), geolocation=()\r\n\
                    Strict-Transport-Security: max-age=63072000; includeSubDomains; preload\r\n";
    assert_eq!(HeaderConfig::default().render(), expected);
}

#[test]
fn header_render_reflects_hsts_and_csp_config() {
    // HSTS disabled -> no STS line at all.
    let off = HeaderConfig { hsts_max_age: 0, ..Default::default() };
    assert!(!off.render().contains("Strict-Transport-Security"));
    // Trimmed HSTS + CSP.
    let h = HeaderConfig {
        hsts_max_age: 100,
        hsts_include_subdomains: false,
        hsts_preload: false,
        csp: "default-src 'self'".into(),
    };
    let r = h.render();
    assert!(r.contains("Strict-Transport-Security: max-age=100\r\n"));
    assert!(!r.contains("includeSubDomains") && !r.contains("preload"));
    assert!(r.contains("Content-Security-Policy: default-src 'self'\r\n"));
}

// ---- value parsing ----

#[test]
fn size_suffixes_are_binary_and_optional() {
    let sz = |v: &str| site_with(&format!("max_file_size = {v}")).unwrap().sites[0].tuning.max_file_size;
    assert_eq!(sz("1048576"), 1_048_576); // bare bytes
    assert_eq!(sz("1K"), 1024);
    assert_eq!(sz("1k"), 1024); // case-insensitive
    assert_eq!(sz("8M"), 8 << 20);
    assert_eq!(sz("2G"), 2 << 30);
}

#[test]
fn boolean_forms_are_accepted() {
    let b = |v: &str| site_with(&format!("compression = {v}")).unwrap().sites[0].tuning.compression;
    for y in ["on", "true", "yes", "1", "ON", "True"] {
        assert!(b(y), "{y} should be true");
    }
    for n in ["off", "false", "no", "0", "OFF"] {
        assert!(!b(n), "{n} should be false");
    }
}

#[test]
fn out_of_range_and_malformed_tuning_is_rejected() {
    let bad = |line: &str| site_with(line).is_err();
    assert!(bad("brotli_quality = 12"), "brotli max is 11");
    assert!(bad("gzip_level = 10"), "gzip max is 9");
    assert!(bad("brotli_quality = abc"));
    assert!(bad("compression = maybe"));
    assert!(bad("max_file_size = 10X"), "unknown size suffix");
    assert!(bad("max_file_size = "), "empty size");
    assert!(bad("cache_max_age = soon"));
}

#[test]
fn size_overflow_is_rejected_not_wrapped() {
    // 2e10 * 1GiB overflows usize; must error rather than wrap to a tiny cap.
    let e = with("max_total_bytes = 20000000000G").err().unwrap();
    assert!(e.contains("overflow"), "{e}");
}

#[test]
fn a_repeated_directive_takes_the_last_value() {
    let c = with("brotli_quality = 2\nbrotli_quality = 7").unwrap();
    assert_eq!(c.sites[0].tuning.brotli_quality, 7);
    let c = site_with("brotli_quality = 2\nbrotli_quality = 7").unwrap();
    assert_eq!(c.sites[0].tuning.brotli_quality, 7);
}

#[test]
fn values_tolerate_surrounding_whitespace() {
    let c = site_with("  compression   =   off  \n  max_file_size = 4M  ").unwrap();
    assert!(!c.sites[0].tuning.compression);
    assert_eq!(c.sites[0].tuning.max_file_size, 4 << 20);
    // ...and so do redirect rules.
    let c = site_with("   redirect    /a    ->    /b   ").unwrap();
    assert_eq!(c.sites[0].redirects.resolve("/a").unwrap(), "/b");
}

// ---- exact values ----

#[test]
fn each_error_is_worded_exactly() {
    let site = "site a.com {\n root = /w\n cert = /c\n key = /k\n}\n";
    let top = |line: &str| parse_config(&format!("listen = h:443\n{line}\n{site}")).err().unwrap();
    let inner = |line: &str| {
        parse_config(&format!("listen = h:443\nsite a.com {{\n{line}\n}}\n")).err().unwrap()
    };
    assert_eq!(parse_config(site).err().unwrap(), "missing 'listen'");
    assert_eq!(
        parse_config("listen = h:443").err().unwrap(),
        "at least one 'site <host> { ... }' block is required"
    );
    assert_eq!(top("listen = h"), "config line 2: listen must be host:port");
    assert_eq!(top("listen = :1"), "config line 2: listen must be host:port, e.g. [::]:443");
    assert_eq!(
        top("listen_http = h:"),
        "config line 2: listen_http must be host:port, e.g. [::]:80"
    );
    assert_eq!(top("nothing"), "config line 2: malformed config line: nothing");
    assert_eq!(top("nothing = 1"), "config line 2: unknown config key: nothing");
    assert_eq!(top("cert = /c"), "config line 2: cert belongs inside a site block");
    assert_eq!(top("}"), "config line 2: stray '}' outside a site block");
    assert_eq!(
        top("storage = SSD"),
        "config line 2: storage: expected memory or disk (got: SSD)"
    );
    assert_eq!(
        top("storage = disk"),
        "storage = disk requires 'disk_cache = <path>' (a writable directory on real disk)"
    );
    assert_eq!(
        top("redirect /a -> /b"),
        "config line 2: redirect rules belong inside a site block"
    );
    assert_eq!(inner("site b {"), "config line 3: site blocks cannot nest");
    assert_eq!(inner("nothing = 1"), "config line 3: unknown site setting: nothing");
    assert_eq!(
        inner("redirect /a /b"),
        "config line 3: redirect must be: redirect <pattern> -> <target>"
    );
    assert_eq!(inner("redirect -> /b"), "config line 3: redirect: empty pattern");
    assert_eq!(
        inner("root = /w"),
        "config line 2: site a.com: missing 'cert' (TLS terminates here even for a redirect-only host)"
    );
    assert_eq!(inner("cert = /c"), "config line 2: site a.com: missing 'key'");
    assert_eq!(
        inner("cert = /c\nkey = /k"),
        "config line 2: site a.com: needs a 'root' to serve, or at least one redirect rule"
    );
    assert_eq!(
        parse_config("site a {").err().unwrap(),
        "config line 1: unclosed site block (missing '}')"
    );
    assert_eq!(
        parse_config("site a").err().unwrap(),
        "config line 1: a site must open a block: site <host[, host2]> {"
    );
    assert_eq!(parse_config("site , {").err().unwrap(), "config line 1: site has no host names");
}

#[test]
fn each_value_error_is_worded_exactly() {
    assert_eq!(parse_bool("k", "maybe").err().unwrap(), "k: expected on/off (got: maybe)");
    assert_eq!(parse_ranged("k", "x", 0, 9).err().unwrap(), "k: expected a number 0-9 (got: x)");
    assert_eq!(parse_ranged("k", "10", 0, 9).err().unwrap(), "k: must be 0-9 (got: 10)");
    assert_eq!(parse_ranged("k", "9", 0, 9).unwrap(), 9);
    assert_eq!(parse_secs("k", "x").err().unwrap(), "k: expected a number of seconds (got: x)");
    assert_eq!(parse_secs("k", " 12 ").unwrap(), 12);
    assert_eq!(
        parse_deadline_secs("k", "86401").err().unwrap(),
        "k: at most 86400 seconds (one day), got 86401"
    );
    assert_eq!(parse_deadline_secs("k", "86400").unwrap(), 86_400);
    assert_eq!(parse_count("k", "-1").err().unwrap(), "k: expected a non-negative integer (got: -1)");
    assert_eq!(parse_count("k", "7").unwrap(), 7);
    assert_eq!(
        parse_header_value("k", "a\u{7f}").err().unwrap(),
        "k: control characters are not allowed in a header value"
    );
    assert_eq!(parse_header_value("k", "a b").unwrap(), "a b");
    assert_eq!(
        parse_size("k", "1q").err().unwrap(),
        "k: expected a byte size like 8M or 1048576 (got: 1q)"
    );
    assert_eq!(
        parse_size("k", "20000000000G").err().unwrap(),
        "k: size overflows (got: 20000000000G)"
    );
    assert_eq!(parse_size("k", "3k").unwrap(), 3072);
}

// ---- laws ----

#[test]
fn a_setting_may_stand_on_either_side_of_a_block() {
    let block = "site a.com {\n root = /w\n cert = /c\n key = /k\n gzip_level = 2\n}\n";
    let setting = "cache_max_age = 9\n";
    let above = parse_config(&format!("listen = h:443\n{setting}{block}")).unwrap();
    let below = parse_config(&format!("listen = h:443\n{block}{setting}")).unwrap();
    assert_eq!(above.sites[0].tuning.cache_max_age, 9);
    assert_eq!(below.sites[0].tuning.cache_max_age, 9);
    assert_eq!(above.sites[0].tuning.gzip_level, 2);
    assert_eq!(below.sites[0].tuning.gzip_level, 2);
}

#[test]
fn one_budget_holds_for_every_site() {
    let c = parse_config(
        "listen = h:443\nmax_total_bytes = 3K\n\
         site a {\n root=/w\n cert=/c\n key=/k\n}\n\
         site b {\n root=/w\n cert=/c\n key=/k\n max_file_size = 1K\n}\n",
    )
    .unwrap();
    assert_eq!(c.sites[0].tuning.max_total_bytes, 3072);
    assert_eq!(c.sites[1].tuning.max_total_bytes, 3072);
    assert_eq!(c.sites[0].tuning.max_file_size, 256 << 20);
    assert_eq!(c.sites[1].tuning.max_file_size, 1024);
}

#[test]
fn a_comment_may_follow_a_hash_in_a_value() {
    let c = site_with("csp = a#b # c").unwrap();
    assert_eq!(c.sites[0].headers.csp, "a#b");
}

#[test]
fn server_settings_are_explained_inside_a_block() {
    assert!(server_only_reason("max_total_bytes").is_some());
    assert!(server_only_reason("csp").is_none());
    assert!(is_site_only("root") && is_site_only("force_ssl") && !is_site_only("listen"));
    assert_eq!(at(7, "x"), "config line 7: x");
}

#[test]
fn a_shared_key_changes_one_setting_or_nothing() {
    let mut t = Tuning::default();
    let mut h = HeaderConfig::default();
    assert_eq!(apply_shared(&mut t, &mut h, "gzip_level", "1"), Ok(true));
    assert_eq!(apply_shared(&mut t, &mut h, "root", "/w"), Ok(false));
    assert!(apply_shared(&mut t, &mut h, "brotli_quality", "12").is_err());
    assert_eq!((t.gzip_level, t.brotli_quality), (1, 11));
}

#[test]
fn advice_is_given_in_the_block_form() {
    assert_eq!(
        explain_site_line("a.com /w /c /k allow_http"),
        "`site = ...` is not valid: a site is a block:\n\n    site a.com {\n        root = /w\n        \
         cert = /c\n        key  = /k\n        force_ssl = off\n    }"
    );
    assert!(explain_redirect_line("w a /c /k").contains("redirect * -> https://a$0"));
}

#[test]
fn rules_expand_and_loops_are_seen() {
    assert_eq!(expand("/x$0-$1-$$-$", "/p", "q"), "/x/p-q-$-$");
    assert!(loops_forever("/a", "/a", ""));
    assert!(loops_forever("$0#f", "/a", ""));
    assert!(!loops_forever("https://h$0", "/a", ""));
    assert!(!loops_forever("/b", "/a", ""));
}

#[test]
fn a_rule_set_is_filled_rule_by_rule() {
    let mut r = Redirects::default();
    assert!(r.is_empty());
    assert!(r.push("/a/*", "/x/$1").is_ok());
    assert!(r.push("/a/b/*", "/y/$1").is_ok());
    assert!(r.push("/a/*", "/z/$1").is_err());
    r.finish();
    assert!(!r.is_empty());
    assert_eq!(r.resolve("/a/b/c").unwrap(), "/y/c");
    assert_eq!(r.resolve("/a/c").unwrap(), "/x/c");
    assert!(r.resolve("/c").is_none());
}

#[test]
fn host_names_are_joined_by_commas() {
    assert_eq!(join_hosts(&vec!["a".to_string(), "b".to_string()]), "a,b");
    assert_eq!(join_hosts(&vec![]), "");
}

// ---- files ----

#[test]
fn load_config_reads_and_parses_a_file() {
    let c = load_config("server.conf", Ok(minimal().to_string())).expect("loads");
    assert_eq!(c.host, "[::]");
}

#[test]
fn load_config_on_a_missing_file_errors() {
    let path = "/nonexistent/definitely/not/here.conf";
    let e = load_config(path, Err("no such file".to_string())).err().unwrap();
    assert!(e.contains("cannot read"), "{e}");
    assert_eq!(e, "cannot read /nonexistent/definitely/not/here.conf: no such file");
}
