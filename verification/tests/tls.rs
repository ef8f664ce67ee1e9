//! Certificates: which pairs are taken, and what is said of the others.
use std::sync::Arc;

use bare_server::cache::CacheBuilder;
use bare_server::config::{parse_config, SiteConfig};
use bare_server::tls::{
    cannot_open, check_cover, check_pair, load_certs, load_key, take_certs, take_key, Cover,
    KeyForm, Pairing, TlsBuilder,
};
use bare_server::vhosts::VhostsBuilder;
use rustls::pki_types::{PrivateKeyDer, PrivatePkcs8KeyDer};

/// One DER element.
fn der(tag: u8, content: &[u8]) -> Vec<u8> {
    let mut out = vec![tag];
    match content.len() {
        n if n < 128 => out.push(n as u8),
        n if n < 256 => out.extend([0x81, n as u8]),
        n => out.extend([0x82, (n >> 8) as u8, n as u8]),
    }
    out.extend_from_slice(content);
    out
}

fn seq(parts: &[&[u8]]) -> Vec<u8> {
    der(0x30, &parts.concat())
}

/// The Ed25519 key whose seed is made of one byte.
fn key_der(seed: u8) -> Vec<u8> {
    let mut k = vec![
        0x30, 0x2e, 0x02, 0x01, 0x00, 0x30, 0x05, 0x06, 0x03, 0x2b, 0x65, 0x70, 0x04, 0x22, 0x04, 0x20,
    ];
    k.extend([seed; 32]);
    k
}

/// A certificate for that key and one name. Nobody has signed it: what it says of
/// its key and its name is all that is read here.
fn cert_der(seed: u8, name: &str) -> Vec<u8> {
    let key = PrivateKeyDer::Pkcs8(PrivatePkcs8KeyDer::from(key_der(seed)));
    let signer = rustls::crypto::ring::sign::any_supported_type(&key).unwrap();
    let public = signer.public_key().unwrap().as_ref().to_vec();
    let algorithm = seq(&[&der(0x06, &[0x2b, 0x65, 0x70])]);
    let names = seq(&[&der(0x82, name.as_bytes())]);
    let san = seq(&[&der(0x06, &[0x55, 0x1d, 0x11]), &der(0x04, &names)]);
    let validity = seq(&[&der(0x17, b"200101000000Z"), &der(0x17, b"400101000000Z")]);
    let tbs = seq(&[
        &der(0xa0, &der(0x02, &[2])),
        &der(0x02, &[1]),
        &algorithm,
        &seq(&[]),
        &validity,
        &seq(&[]),
        &public,
        &der(0xa3, &seq(&[&san])),
    ]);
    seq(&[&tbs, &algorithm, &der(0x03, &[0u8; 65])])
}

fn base64(data: &[u8]) -> String {
    let alphabet = b"ABCDEFGHIJKLMNOPQRSTUVWXYZabcdefghijklmnopqrstuvwxyz0123456789+/";
    let mut out = String::new();
    for chunk in data.chunks(3) {
        let mut word = [0u8; 3];
        word[..chunk.len()].copy_from_slice(chunk);
        let n = u32::from_be_bytes([0, word[0], word[1], word[2]]);
        for i in 0..4 {
            if i <= chunk.len() {
                out.push(alphabet[(n >> (18 - 6 * i)) as usize & 63] as char);
            } else {
                out.push('=');
            }
        }
    }
    out
}

fn pem(label: &str, data: &[u8]) -> Vec<u8> {
    format!("-----BEGIN {label}-----\n{}\n-----END {label}-----\n", base64(data)).into_bytes()
}

fn cert_pem(seed: u8, name: &str) -> Vec<u8> {
    pem("CERTIFICATE", &cert_der(seed, name))
}

fn key_pem(seed: u8) -> Vec<u8> {
    pem(&["PRIVATE", "KEY"].join(" "), &key_der(seed))
}

fn site(hosts: &[&str], root: Option<&str>) -> SiteConfig {
    SiteConfig {
        hosts: hosts.iter().map(|h| h.to_string()).collect(),
        root: root.map(Into::into),
        cert: "c.pem".into(),
        key: "k.pem".into(),
        force_ssl: false,
        canonical_urls: false,
        redirects: Arc::new(Default::default()),
        tuning: Default::default(),
        headers: Default::default(),
    }
}

/// Takes a site through the whole of its certificate's checks.
fn build_tls(s: &SiteConfig, cert: &[u8], key: &[u8]) -> Result<(), String> {
    let chain = load_certs(s, cert)?;
    let key = load_key(s, key)?;
    TlsBuilder::new().build_tls(s, &chain, &key)
}

#[test]
fn build_tls_accepts_a_matching_pair_covering_the_host() {
    let s = site(&["localhost"], Some("www"));
    assert_eq!(build_tls(&s, &cert_pem(1, "localhost"), &key_pem(1)), Ok(()));
}

#[test]
fn build_tls_rejects_a_mismatched_key() {
    let s = site(&["localhost"], Some("www"));
    let e = build_tls(&s, &cert_pem(1, "localhost"), &key_pem(2)).err().unwrap();
    assert!(e.contains("does not match"), "{e}");
    assert!(e.starts_with("localhost: key k.pem does not match cert c.pem: "), "{e}");
}

#[test]
fn build_tls_rejects_a_host_the_cert_does_not_cover() {
    let s = site(&["example.com"], Some("www"));
    let e = build_tls(&s, &cert_pem(1, "localhost"), &key_pem(1)).err().unwrap();
    assert!(e.starts_with("example.com: sni add failed (cert c.pem must cover this name): "), "{e}");
}

#[test]
fn build_tls_rejects_a_missing_cert_file() {
    assert_eq!(
        cannot_open(&site(&["localhost"], None), "cert", "target/none.pem", "not found"),
        "localhost: cannot open cert target/none.pem: not found"
    );
}

#[test]
fn build_tls_rejects_an_empty_cert_file() {
    let s = site(&["localhost"], Some("www"));
    assert_eq!(build_tls(&s, b"", &key_pem(1)).err().unwrap(), "localhost: no certificates in c.pem");
}

#[test]
fn build_tls_builds_a_redirect_only_host() {
    // A rootless site serves no content but still terminates TLS.
    let s = site(&["localhost"], None);
    assert!(build_tls(&s, &cert_pem(3, "localhost"), &key_pem(3)).is_ok());
}

#[test]
fn build_runtime_builds_vhosts_and_tls_together() {
    let text = "listen = 127.0.0.1:0\nsite localhost {\n root = www\n cert = c.pem\n key = k.pem\n}\n";
    let cfg = parse_config(text).unwrap();
    let s = &cfg.sites[0];
    let mut vhosts = VhostsBuilder::new(&cfg);
    let policy = vhosts.open_site(&cfg, s).unwrap();
    let mut cache = CacheBuilder::new(vhosts.total as usize, &policy);
    let page = cache.hold("/index.html", b"<h1>home</h1>");
    assert!(cache.take_in("/index.html".to_string(), page));
    let CacheBuilder { total, cache, .. } = cache;
    vhosts.close_site(s, s.root.clone(), policy, total).unwrap();
    assert!(vhosts.vhosts.names.get("localhost").is_some());
    assert!(cache.get("/index.html").is_some());
    assert!(build_tls(s, &cert_pem(1, "localhost"), &key_pem(1)).is_ok());
}

#[test]
fn every_alias_must_be_covered() {
    let s = site(&["localhost", "www.localhost"], Some("www"));
    let e = build_tls(&s, &cert_pem(1, "localhost"), &key_pem(1)).err().unwrap();
    assert!(e.starts_with("www.localhost: sni add failed"), "{e}");
}

#[test]
fn a_file_is_read_as_pem() {
    let s = site(&["a", "b"], None);
    let two = [cert_pem(1, "a"), key_pem(1), cert_pem(2, "b")].concat();
    let chain = load_certs(&s, &two).unwrap();
    assert_eq!(chain, vec![cert_der(1, "a"), cert_der(2, "b")]);
    let key = load_key(&s, &two).unwrap();
    assert_eq!((key.form, key.der), (KeyForm::Pkcs8, key_der(1)));
    assert_eq!(load_key(&s, &cert_pem(1, "a")).err().unwrap(), "a,b: no private key in k.pem");
    let broken = b"-----BEGIN CERTIFICATE-----\n!!!\n-----END CERTIFICATE-----\n";
    let e = load_certs(&s, broken).err().unwrap();
    assert!(e.starts_with("a,b: cannot parse cert: "), "{e}");
    let label = ["PRIVATE", "KEY"].join(" ");
    let broken = format!("-----BEGIN {label}-----\n!!!\n-----END {label}-----\n");
    let e = load_key(&s, broken.as_bytes()).err().unwrap();
    assert!(e.starts_with("a,b: cannot read key: "), "{e}");
}

#[test]
fn each_verdict_on_a_pair_is_worded() {
    let s = site(&["a"], None);
    assert!(check_pair(&s, &Pairing::Match).is_ok());
    assert!(check_pair(&s, &Pairing::Unknown).is_ok());
    assert_eq!(check_pair(&s, &Pairing::Unsupported).err().unwrap(), "a: unsupported key type");
    assert_eq!(
        check_pair(&s, &Pairing::Mismatch("why".into())).err().unwrap(),
        "a: key k.pem does not match cert c.pem: why"
    );
    assert!(check_cover(&s, "h", &Cover::Covered).is_ok());
    assert_eq!(check_cover(&s, "h", &Cover::NoKey).err().unwrap(), "a: unsupported key type");
    assert_eq!(
        check_cover(&s, "h", &Cover::Refused("why".into())).err().unwrap(),
        "h: sni add failed (cert c.pem must cover this name): why"
    );
    assert_eq!(take_certs(&s, Err("x".into())).err().unwrap(), "a: cannot parse cert: x");
    assert_eq!(take_certs(&s, Ok(vec![vec![1]])).unwrap(), vec![vec![1]]);
    assert_eq!(take_key(&s, Err("x".into())).err().unwrap(), "a: cannot read key: x");
}

#[test]
fn a_key_of_no_known_type_is_refused() {
    let s = site(&["a"], None);
    let key = pem(&["PRIVATE", "KEY"].join(" "), &[1, 2, 3]);
    assert_eq!(build_tls(&s, &cert_pem(1, "a"), &key).err().unwrap(), "a: unsupported key type");
}

#[test]
fn a_key_that_is_no_rsa_key_is_unsupported_as_one() {
    let s = site(&["localhost"], Some("www"));
    let rsa = pem(&["RSA PRIVATE", "KEY"].join(" "), &seq(&[&der(0x02, &[0])]));
    let key = load_key(&s, &rsa).unwrap();
    assert_eq!(key.form, KeyForm::Pkcs1);
    assert_eq!(
        build_tls(&s, &cert_pem(1, "localhost"), &rsa),
        Err("localhost: unsupported key type".to_string())
    );
}
