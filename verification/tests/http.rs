//! The pieces of a request and of an answer.
use bare_server::http::{
    accepts_encoding, canonical_form, find, find_from, hexval, inm_matches, is_zero_q,
    normalize_host, percent_decode, percent_encode_path, read_text, redirect_authority,
    well_formed_head,
};
use bare_server::request::parse_request;

#[test]
fn find_locates_and_bounds() {
    assert_eq!(find(b"abcdef", b"cd"), Some(2));
    assert_eq!(find(b"abc", b"x"), None);
    assert_eq!(find(b"abc", b""), None); // empty needle
    assert_eq!(find(b"a", b"abc"), None); // needle longer than hay
}

#[test]
fn zero_q_detection() {
    for y in ["0", "0.", "0.0", "0.000"] {
        assert!(is_zero_q(y), "{y} is q=0");
    }
    for n in ["1", "0.5", "0.001", "0.1", ""] {
        assert!(!is_zero_q(n), "{n} is not q=0");
    }
}

#[test]
fn accept_encoding_parsing() {
    assert!(accepts_encoding("gzip, br", "br"));
    assert!(accepts_encoding("gzip, deflate, br", "gzip"));
    assert!(!accepts_encoding("gzip", "br"));
    assert!(!accepts_encoding("", "gzip")); // absent header: identity only
    assert!(!accepts_encoding("br;q=0", "br")); // explicit refusal
    assert!(accepts_encoding("br;q=0.1", "br"));
    assert!(accepts_encoding("*", "br")); // wildcard accepts
    assert!(!accepts_encoding("*;q=0", "br")); // wildcard refusal
    assert!(!accepts_encoding("*, br;q=0", "br")); // explicit beats wildcard
    // A multi-byte char after the coding name must not panic (get(..2)).
    assert!(accepts_encoding("gzip;\u{20ac}", "gzip"));
}

#[test]
fn if_none_match_uses_whole_tag_comparison() {
    assert!(inm_matches("\"abc-123\"", "abc-123"));
    assert!(inm_matches("*", "anything"));
    assert!(inm_matches("W/\"abc-123\"", "abc-123")); // weak prefix stripped
    assert!(inm_matches("\"x\", \"abc-123\"", "abc-123")); // in a list
    assert!(!inm_matches("\"abc-1234\"", "abc-123")); // no substring match
    assert!(!inm_matches("\"other\"", "abc-123"));
}

#[test]
fn hex_and_percent_decoding() {
    assert_eq!(hexval(b'0'), Some(0));
    assert_eq!(hexval(b'f'), Some(15));
    assert_eq!(hexval(b'F'), Some(15));
    assert_eq!(hexval(b'g'), None);
    assert_eq!(percent_decode("/a%20b").unwrap(), b"/a b");
    assert_eq!(percent_decode("/%69ndex").unwrap(), b"/index");
    assert!(percent_decode("/%00").is_none()); // NUL rejected
    assert!(percent_decode("/%zz").is_none()); // bad hex
    assert!(percent_decode("/%2").is_none()); // truncated escape
    assert!(percent_decode("/a\u{7f}").is_none()); // DEL rejected
}

#[test]
fn host_normalization() {
    assert_eq!(normalize_host("Example.COM"), "example.com");
    assert_eq!(normalize_host("example.com:8443"), "example.com");
    assert_eq!(normalize_host("[2001:db8::1]:443"), "2001:db8::1");
    assert_eq!(normalize_host("  host  "), "host");
}

#[test]
fn redirect_authority_omits_default_ports_only() {
    assert_eq!(redirect_authority("h", "443", "443"), "h"); // default https: omit
    assert_eq!(redirect_authority("h", "80", "80"), "h"); // default http: omit
    assert_eq!(redirect_authority("h", "", "443"), "h"); // empty: omit
    assert_eq!(redirect_authority("h", "8443", "443"), "h:8443"); // non-default: keep
}

#[test]
fn canonical_form_folds_the_html_spellings_onto_the_directory() {
    assert_eq!(canonical_form("/index.html").as_deref(), Some("/"));
    assert_eq!(canonical_form("/about.html").as_deref(), Some("/about/"));
    assert_eq!(canonical_form("/about/index.html").as_deref(), Some("/about/"));
    assert_eq!(canonical_form("/blog/a-post.html").as_deref(), Some("/blog/a-post/"));
    assert_eq!(canonical_form("/a/b/index.html").as_deref(), Some("/a/b/"));
    // "index" only counts as a whole segment.
    assert_eq!(canonical_form("/myindex.html").as_deref(), Some("/myindex/"));
    // Already canonical, or simply not an .html URL: serve it.
    assert!(canonical_form("/").is_none());
    assert!(canonical_form("/about/").is_none());
    assert!(canonical_form("/about").is_none());
    assert!(canonical_form("/style-0667c2b357.css").is_none());
    assert!(canonical_form("/index.htm").is_none());
}

#[test]
fn canonical_form_output_never_needs_a_second_hop() {
    // The result never ends in .html, so the redirect cannot match again —
    // which is what makes this loop-free for any input.
    for p in ["/index.html", "/a.html", "/a/index.html", "/a/b/c.html", "/myindex.html"] {
        let once = canonical_form(p).expect("redirects");
        assert!(canonical_form(&once).is_none(), "{p} -> {once} would redirect again");
    }
}

#[test]
fn a_search_resumes_where_it_left_off() {
    assert_eq!(find_from(b"abcabc", b"bc", 2), Some(4));
    assert_eq!(find_from(b"abcabc", b"bc", 5), None);
}

#[test]
fn only_strictly_framed_heads_are_taken() {
    assert!(well_formed_head(b"GET / HTTP/1.1\r\nHost: a\r\n\r\n"));
    assert!(!well_formed_head(b"GET / HTTP/1.1\nHost: a\r\n\r\n"), "a bare LF");
    assert!(!well_formed_head(b"GET / HTTP/1.1\rHost: a\r\n\r\n"), "a bare CR");
    assert!(!well_formed_head(b"GET / HTTP/1.1\r\nHo\x00st: a\r\n\r\n"), "a NUL");
}

#[test]
fn percent_encoding_decodes_back() {
    assert_eq!(percent_encode_path("/a b/\u{e9}%"), "/a%20b/%C3%A9%25");
    for s in ["/", "/a b", "/\u{e9}t\u{e9}/%41", "/x?y#z"] {
        assert_eq!(percent_decode(&percent_encode_path(s)).unwrap(), s.as_bytes(), "{s}");
    }
}

#[test]
fn text_is_read_as_utf8() {
    assert_eq!(read_text("h\u{e9}".as_bytes()), Some("h\u{e9}"));
    assert_eq!(read_text(&[0xc3]), None);
}

#[test]
fn a_request_is_taken_apart() {
    let r = parse_request(
        b"HEAD /a?b=1 HTTP/1.1\r\nHost: H.example:8443\r\nAccept-Encoding: br\r\nIf-None-Match: \"x\"\r\n\r\n",
    )
    .ok()
    .unwrap();
    assert!(r.is_head && !r.is_get && r.keep_alive);
    assert_eq!(r.target, "/a?b=1");
    assert_eq!(normalize_host(&r.host), "h.example");
    assert_eq!(r.accept_enc, "br");
    assert_eq!(r.inm, "\"x\"");
    // A bad one still says whether a body may be sent with the refusal.
    assert_eq!(parse_request(b"HEAD / HTTP/1.1\r\nContent-Length: 1\r\n\r\n").err(), Some(true));
    assert_eq!(parse_request(b"\xff\r\n\r\n").err(), Some(false));
}

#[test]
fn a_head_that_could_be_read_twice_is_refused() {
    let bad = |head: &[u8]| parse_request(head).is_err();
    assert!(!bad(b"GET / HTTP/1.1\r\nHost: a\r\n\r\n"));
    assert!(bad(b"GET / HTTP/1.1\r\nHost: a\r\nHost: a\r\n\r\n"), "two hosts");
    assert!(bad(b"GET / HTTP/1.1\r\nHost: a\r\nhost: b\r\n\r\n"), "two hosts, one in lower case");
    assert!(bad(b"GET / HTTP/1.1\r\nHost: a\r\n folded\r\n\r\n"), "a folded line");
    assert!(bad(b"GET / HTTP/1.1\r\nContent-Length : 0\r\n\r\n"), "a blank in a name");
    assert!(bad(b"GET / HTTP/1.1\r\nContent-Length: 00\r\n\r\n"), "not the one way to say none");
    assert!(bad(b"GET / HTTP/1.1\r\nTransfer-Encoding: identity\r\n\r\n"));
    assert!(bad(b"GET / HTTP/1.1\r\n: x\r\n\r\n"), "no name");
    assert!(bad(b"GET / HTTP/1.1\r\nno colon\r\n\r\n"));
    assert!(bad(b"GET / HTTP/1.1 x\r\n\r\n"), "four fields");
    assert!(bad(b"GET / HTTP/2\r\n\r\n"));
}
