//! Which files of a tree end up in the cache, and when a build is given up.
use bare_server::cache::{cache_bytes, course_after, Cached, Course, Fault, Kind, Policy, SiteCache};
use bare_server::config::{HeaderConfig, Storage, Tuning};
use bare_server::walk::{Step, Walk};

/// A directory entry.
enum Entry {
    Dir(Vec<(&'static str, Entry)>),
    /// A directory that cannot be listed.
    Barred,
    File(Vec<u8>),
    /// A file that cannot be read.
    Unreadable(usize),
    Link,
    Fifo,
}

use Entry::{Barred, Dir, Fifo, File, Link, Unreadable};

fn file(text: &str) -> Entry {
    File(text.as_bytes().to_vec())
}

fn names(list: &[(&'static str, Entry)]) -> Vec<String> {
    list.iter().map(|(name, _)| name.to_string()).collect()
}

/// What a walk came to, and the order in which it read.
struct Outcome {
    cache: Option<SiteCache>,
    total: usize,
    read: Vec<String>,
}

impl Outcome {
    fn has(&self, url: &str) -> bool {
        self.cache.as_ref().unwrap().get(url).is_some()
    }
}

fn walk(root: &[(&'static str, Entry)], total: usize, policy: &Policy) -> Outcome {
    let mut walk = Walk::new(total, policy, names(root));
    let mut open = vec![root];
    let mut read = Vec::new();
    loop {
        let (kind, size) = match walk.upcoming() {
            None => (Kind::Unknown, 0),
            Some((depth, index)) => match &open[depth - 1][index].1 {
                Dir(_) | Barred => (Kind::Dir, 4096),
                File(data) => (Kind::File, data.len()),
                Unreadable(size) => (Kind::File, *size),
                Link => (Kind::Link, 9),
                Fifo => (Kind::Other, 0),
            },
        };
        let fault = match walk.step(kind, size) {
            Step::Next | Step::Oversized(_) => continue,
            Step::Done => {
                return Outcome { total: walk.builder.total, cache: Some(walk.builder.cache), read }
            }
            Step::OverBudget(_) => return Outcome { total: walk.builder.total, cache: None, read },
            Step::List { depth, index, url } => match &open[depth - 1][index].1 {
                Dir(list) => {
                    open.truncate(depth);
                    open.push(list);
                    walk.enter(url, names(list));
                    continue;
                }
                _ => Fault::Listing,
            },
            Step::Read { depth, index, url } => match &open[depth - 1][index].1 {
                File(data) => {
                    read.push(url.clone());
                    let cached = match policy.storage {
                        Storage::Memory => walk.builder.hold(&url, data),
                        Storage::Disk => Cached::Disk(walk.builder.stage(&url, data).entry),
                    };
                    if !walk.take_in(url, cached) {
                        return Outcome { total: walk.builder.total, cache: None, read };
                    }
                    continue;
                }
                _ => Fault::Reading,
            },
        };
        if course_after(fault) == Course::GiveUp {
            return Outcome { total: walk.builder.total, cache: None, read };
        }
    }
}

fn with(f: impl FnOnce(&mut Tuning), storage: Storage) -> Policy {
    let mut t = Tuning::default();
    f(&mut t);
    Policy::with_headers(t, &HeaderConfig::default(), storage, "/var/cache/bs".to_string())
}

fn site() -> Vec<(&'static str, Entry)> {
    vec![
        ("index.html", file("<h1>home</h1>")),
        ("empty", Dir(vec![])),
        (
            "docs",
            Dir(vec![
                ("a.txt", file("a")),
                (".draft", file("hidden")),
                ("deep", Dir(vec![("er", Dir(vec![("b.css", file("b {}"))])), ("l", Link)])),
                ("c.txt", file("c")),
            ]),
        ),
        (".git", Dir(vec![("config", file("hidden"))])),
        (".well-known", Dir(vec![("security.txt", file("s")), (".x", file("hidden"))])),
        ("link", Link),
        ("fifo", Fifo),
        ("big.bin", File(vec![7; 3000])),
        ("gone.txt", Unreadable(10)),
        ("last.txt", file("last")),
    ]
}

#[test]
fn a_walk_serves_exactly_the_plain_files() {
    for storage in [Storage::Memory, Storage::Disk] {
        let r = walk(&site(), 100, &with(|t| t.max_file_size = 2999, storage));
        // In the order of the listings, a directory where it stands.
        assert_eq!(
            r.read,
            [
                "/index.html",
                "/docs/a.txt",
                "/docs/deep/er/b.css",
                "/docs/c.txt",
                "/.well-known/security.txt",
                "/last.txt",
            ]
        );
        for url in &r.read {
            assert!(r.has(url), "{url}");
        }
        let cache = r.cache.as_ref().unwrap();
        assert_eq!(cache.count(), 6);
        assert_eq!(r.total, 100 + cache_bytes(cache));
        for url in ["/docs/.draft", "/.git/config", "/.well-known/.x", "/big.bin", "/gone.txt", "/link"] {
            assert!(!r.has(url), "{url}");
        }
    }
}

#[test]
fn a_file_at_the_size_limit_is_served() {
    let r = walk(&site(), 0, &with(|t| t.max_file_size = 3000, Storage::Memory));
    assert!(r.has("/big.bin"));
}

#[test]
fn a_file_is_cached_with_its_own_content() {
    let r = walk(&site(), 0, &with(|_| {}, Storage::Memory));
    match r.cache.unwrap().get("/docs/c.txt") {
        Some(Cached::Mem(e)) => assert!(e.identity.full_ka.ends_with(b"\r\n\r\nc")),
        _ => panic!("not there"),
    }
}

#[test]
fn an_unreadable_subdirectory_fails_the_build_instead_of_truncating_it() {
    let readable = [
        ("index.html", file("<h1>home</h1>")),
        ("private", Dir(vec![("secret.html", file("x"))])),
    ];
    let barred = [("index.html", file("<h1>home</h1>")), ("private", Barred)];
    let p = with(|_| {}, Storage::Memory);
    assert!(walk(&readable, 0, &p).has("/private/secret.html"));
    assert!(walk(&barred, 0, &p).cache.is_none());
    // Also further down, and on disk.
    let deeper = [("a", Dir(vec![("b", Dir(vec![("c", Barred)]))])), ("d.txt", file("d"))];
    assert!(walk(&deeper, 0, &with(|_| {}, Storage::Disk)).cache.is_none());
    // What is not entered need not be listed.
    let hidden = [("index.html", file("<h1>home</h1>")), (".private", Barred)];
    assert!(walk(&hidden, 0, &p).has("/index.html"));
}

#[test]
fn a_walk_is_given_up_where_it_passes_the_budget() {
    let whole = walk(&site(), 0, &with(|_| {}, Storage::Memory));
    let spent = whole.total;
    // The last file needs the last byte.
    assert!(walk(&site(), 0, &with(|t| t.max_total_bytes = spent, Storage::Memory)).cache.is_some());
    let short = walk(&site(), 0, &with(|t| t.max_total_bytes = spent - 1, Storage::Memory));
    assert!(short.cache.is_none());
    assert_eq!(short.read.last().map(String::as_str), Some("/last.txt"));
    // What is held already counts, and a file that cannot fit is not read.
    let full = walk(&site(), 4990, &with(|t| t.max_total_bytes = 5000, Storage::Memory));
    assert!(full.cache.is_none() && full.read.is_empty());
    // The budget does not gate the disk.
    assert!(walk(&site(), 4990, &with(|t| t.max_total_bytes = 5000, Storage::Disk)).cache.is_some());
}

#[test]
fn only_a_listing_that_fails_ends_a_build() {
    assert_eq!(course_after(Fault::Listing), Course::GiveUp);
    assert_eq!(course_after(Fault::Reading), Course::PassOver);
    assert_eq!(course_after(Fault::Snapshot), Course::PassOver);
}

#[test]
fn a_walk_says_which_entry_it_is_at() {
    let p = with(|_| {}, Storage::Memory);
    let mut w = Walk::new(0, &p, vec![".a".into(), "d".into()]);
    assert_eq!(w.upcoming(), Some((1, 0)));
    assert!(matches!(w.step(Kind::File, 1), Step::Next));
    assert_eq!(w.upcoming(), Some((1, 1)));
    assert!(
        matches!(w.step(Kind::Dir, 0), Step::List { depth: 1, index: 1, url } if url == "/d")
    );
    w.enter("/d".into(), vec!["f".into()]);
    assert_eq!(w.upcoming(), Some((2, 0)));
    assert!(
        matches!(w.step(Kind::File, 1), Step::Read { depth: 2, index: 0, url } if url == "/d/f")
    );
    assert_eq!(w.upcoming(), None);
    assert!(matches!(w.step(Kind::Unknown, 0), Step::Next), "out of /d");
    assert!(matches!(w.step(Kind::Unknown, 0), Step::Next), "out of the root");
    assert!(matches!(w.step(Kind::Unknown, 0), Step::Done));
    let large = Walk::new(0, &p, vec!["big".into()]).step(Kind::File, usize::MAX);
    assert!(matches!(large, Step::Oversized(url) if url == "/big"));
}
