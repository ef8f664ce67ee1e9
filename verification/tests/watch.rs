//! When what is served is built anew.
use bare_server::watch::{
    bind_addr, bind_failed, http_plan, rebind_failed, site_key, Built, HttpPlan, Move, Moved, Reload,
    Running, TreeSeed, Watcher, MAX_RELOAD_BACKOFF, WATCH_INTERVAL,
};

fn links(target: &str) -> Vec<(String, String)> {
    vec![("/www".to_string(), target.to_string())]
}

fn seed(host: &str, sampled: Option<u64>, fresh: u64) -> TreeSeed {
    TreeSeed { host: host.to_string(), root: "/www".to_string(), sampled, fresh }
}

/// A watcher of a server at rest, with the signatures 1 (configuration) and 2
/// (certificates).
fn at_rest(seeds: Vec<TreeSeed>) -> Watcher {
    Watcher::new(1, 1, vec!["c".into(), "k".into()], 2, 2, links("/r1"), Some(links("/r1")), &seeds)
}

fn running() -> Running<&'static str, &'static str> {
    Running { sites: "sites", certs: "certs", max_conns_per_ip: 64, max_response_secs: 0 }
}

fn built() -> Built<&'static str, &'static str> {
    Built {
        running: Running {
            sites: "new sites",
            certs: "new certs",
            max_conns_per_ip: 9,
            max_response_secs: 8,
        },
        links: links("/r1"),
        tls_files: vec![],
        tls: 2,
        tls_now: 2,
        seeds: vec![],
        https: "h:1".to_string(),
        http: None,
    }
}

/// One tick without a reload.
fn tick(w: &mut Watcher, cfg: u64, tls: u64, target: &str, now: u64) -> Reload {
    let r = w.watch(cfg, tls, Some(links(target)), now);
    w.seen();
    r
}

#[test]
fn two_sites_sharing_a_root_get_separate_watcher_slots() {
    let root = "/srv/www";
    assert_ne!(site_key("a.test", root), site_key("b.test", root));
    // The key is stable for a given (host, root) pair across ticks.
    assert_eq!(site_key("a.test", root), site_key("a.test", root));
}

#[test]
fn nothing_changes_nothing_happens() {
    let mut w = at_rest(vec![]);
    assert_eq!(tick(&mut w, 1, 2, "/r1", 0), Reload::Nothing);
    assert_eq!(w.tls_files(), &vec!["c".to_string(), "k".to_string()]);
}

#[test]
fn a_change_must_hold_for_two_ticks() {
    let mut w = at_rest(vec![]);
    assert_eq!(tick(&mut w, 7, 2, "/r1", 0), Reload::Nothing);
    assert_eq!(tick(&mut w, 8, 2, "/r1", 1), Reload::Nothing, "still being written");
    assert_eq!(tick(&mut w, 8, 2, "/r1", 2), Reload::Config);
}

#[test]
fn a_renewed_certificate_reloads_the_certificates_alone() {
    let mut w = at_rest(vec![]);
    assert_eq!(tick(&mut w, 1, 9, "/r1", 0), Reload::Nothing);
    assert_eq!(w.watch(1, 9, Some(links("/r1")), 1), Reload::Tls);
    let mut live = running();
    assert_eq!(w.tls_tried(&mut live, Ok("new certs")), None);
    assert_eq!((live.sites, live.certs), ("sites", "new certs"));
    w.settle(None, 1);
    w.seen();
    assert_eq!(tick(&mut w, 1, 9, "/r1", 2), Reload::Nothing);
}

#[test]
fn a_flipped_release_link_reloads_everything() {
    let mut w = at_rest(vec![]);
    assert_eq!(tick(&mut w, 1, 2, "/r2", 0), Reload::Nothing);
    assert_eq!(tick(&mut w, 1, 2, "/r2", 1), Reload::Config);
}

#[test]
fn a_failure_is_retried_with_growing_delays() {
    let mut w = at_rest(vec![]);
    tick(&mut w, 7, 2, "/r1", 0);
    let mut now = 0;
    let mut delay = WATCH_INTERVAL;
    for round in 0..8 {
        assert_eq!(w.watch(7, 2, Some(links("/r1")), now), Reload::Config, "round {round}");
        assert_eq!(w.settle(Some("bad".to_string()), now), round == 0, "said once");
        w.seen();
        assert_eq!(tick(&mut w, 7, 2, "/r1", now + delay - 1), Reload::Nothing, "round {round}");
        now += delay;
        delay = (delay * 2).min(MAX_RELOAD_BACKOFF);
    }
    // Another cause is said again.
    assert_eq!(w.watch(7, 2, Some(links("/r1")), now), Reload::Config);
    assert!(w.settle(Some("worse".to_string()), now));
}

#[test]
fn a_failed_reload_leaves_what_runs() {
    let mut w = at_rest(vec![]);
    let mut live = running();
    tick(&mut w, 7, 9, "/r1", 0);
    assert_eq!(w.watch(7, 9, Some(links("/r1")), 1), Reload::Config);
    assert_eq!(w.config_tried(&mut live, Err("bad".to_string())), Some("bad".to_string()));
    assert_eq!(w.tls_tried(&mut live, Err("worse".to_string())), Some("worse".to_string()));
    assert_eq!((live.sites, live.certs), ("sites", "certs"));
    assert_eq!((live.max_conns_per_ip, live.max_response_secs), (64, 0));
    assert_eq!(w.pending(), &None);
    w.settle(Some("bad".to_string()), 1);
    w.seen();
    assert_eq!(tick(&mut w, 7, 9, "/r1", WATCH_INTERVAL), Reload::Nothing, "not yet");
    assert_eq!(tick(&mut w, 7, 9, "/r1", 1 + WATCH_INTERVAL), Reload::Config, "tried again");
}

#[test]
fn a_fix_does_not_wait_for_the_delay() {
    let mut w = at_rest(vec![]);
    tick(&mut w, 7, 2, "/r1", 0);
    w.watch(7, 2, Some(links("/r1")), 1);
    w.settle(Some("bad".to_string()), 1);
    w.seen();
    assert_eq!(tick(&mut w, 8, 2, "/r1", 2), Reload::Nothing, "seen for the first time");
    assert_eq!(tick(&mut w, 8, 2, "/r1", 3), Reload::Config, "well before the delay is over");
}

#[test]
fn listeners_are_tried_again_alone() {
    let mut w = at_rest(vec![]);
    tick(&mut w, 7, 2, "/r1", 0);
    assert_eq!(w.watch(7, 2, Some(links("/r1")), 1), Reload::Config);
    let mut live = running();
    assert_eq!(w.config_tried(&mut live, Ok(built())), None);
    assert_eq!((live.sites, live.certs), ("new sites", "new certs"));
    assert_eq!((live.max_conns_per_ip, live.max_response_secs), (9, 8));
    assert_eq!(w.pending(), &Some(("h:1".to_string(), None)));
    w.settle(Some("busy".to_string()), 1);
    w.seen();
    assert_eq!(tick(&mut w, 7, 2, "/r1", 1 + WATCH_INTERVAL), Reload::Listeners);
    let mut failure = None;
    assert_eq!(w.listeners_moved(Moved::Start, false, &mut failure), Move::Https);
    assert_eq!(w.listeners_moved(Moved::Https(Ok(())), false, &mut failure), Move::Settled);
    assert_eq!(w.pending(), &None);
    w.settle(failure, 1 + WATCH_INTERVAL);
    assert_eq!(tick(&mut w, 7, 2, "/r1", 2 + WATCH_INTERVAL), Reload::Nothing);
}

#[test]
fn a_tree_is_loaded_again_once_it_is_at_rest() {
    let mut w = at_rest(vec![seed("a", Some(5), 5)]);
    let key = site_key("a", "/www");
    assert!(!w.content_due(&key, 5));
    assert!(!w.content_due(&key, 6), "seen for the first time");
    w.content_seen(&key, 6);
    assert!(w.content_due(&key, 6));
    assert!(w.content_settled(&key, 6, false), "the first failure is said");
    assert!(!w.content_settled(&key, 6, false), "and no second time");
    assert!(w.content_due(&key, 6), "a failed tree stays due");
    assert!(!w.content_settled(&key, 6, true));
    assert!(!w.content_due(&key, 6));
}

#[test]
fn an_edit_during_the_boot_is_not_lost() {
    let w = at_rest(vec![seed("a", Some(5), 6)]);
    assert!(w.content_due(&site_key("a", "/www"), 6));
}

#[test]
fn the_plain_listener_follows_the_configuration() {
    assert_eq!(http_plan(false, false), HttpPlan::Nothing);
    assert_eq!(http_plan(true, true), HttpPlan::Rebind);
    assert_eq!(http_plan(true, false), HttpPlan::Retire);
    assert_eq!(http_plan(false, true), HttpPlan::Start);
}

/// A watcher whose listeners are still to be moved.
fn with_pending(http: Option<&str>) -> Watcher {
    let mut w = at_rest(vec![]);
    let built = Built { http: http.map(str::to_string), ..built() };
    assert_eq!(w.config_tried(&mut running(), Ok(built)), None);
    w
}

#[test]
fn the_plain_listener_waits_for_https() {
    let mut w = with_pending(None);
    let mut failure = None;
    assert_eq!(w.listeners_moved(Moved::Start, true, &mut failure), Move::Https);
    let busy = Moved::Https(Err("https is busy".to_string()));
    assert_eq!(w.listeners_moved(busy, true, &mut failure), Move::Stuck);
    assert_eq!(failure, Some("https is busy".to_string()));
    assert!(w.pending().is_some(), "all of it is tried again");

    // Once it has moved, the plain one follows.
    let mut failure = None;
    assert_eq!(w.listeners_moved(Moved::Start, true, &mut failure), Move::Https);
    let moved = Moved::Https(Ok(()));
    assert_eq!(w.listeners_moved(moved, true, &mut failure), Move::Http(HttpPlan::Retire));
    assert!(w.pending().is_some(), "not in line yet");
    assert_eq!(w.listeners_moved(Moved::Http(Ok(())), false, &mut failure), Move::Settled);
    assert_eq!((w.pending(), failure), (&None, None));
    // Nothing is left to do.
    assert_eq!(w.listeners_moved(Moved::Start, false, &mut None), Move::Settled);
}

#[test]
fn a_plain_listener_is_moved_or_started() {
    let mut w = with_pending(Some("h:80"));
    let moved = || Moved::Https(Ok(()));
    assert_eq!(w.listeners_moved(moved(), true, &mut None), Move::Http(HttpPlan::Rebind));
    assert_eq!(w.listeners_moved(moved(), false, &mut None), Move::Http(HttpPlan::Start));
    let mut failure = None;
    let busy = Moved::Http(Err("http is busy".to_string()));
    assert_eq!(w.listeners_moved(busy, false, &mut failure), Move::Stuck);
    assert_eq!(failure, Some("http is busy".to_string()));
    assert!(w.pending().is_some());
}

#[test]
fn the_first_failure_is_kept() {
    let mut w = with_pending(None);
    let mut failure = Some("bad certificate".to_string());
    let busy = Moved::Https(Err("https is busy".to_string()));
    assert_eq!(w.listeners_moved(busy, false, &mut failure), Move::Stuck);
    assert_eq!(failure, Some("bad certificate".to_string()));
}

#[test]
fn a_failure_at_the_end_of_the_clock_is_kept_waiting() {
    let mut w = at_rest(vec![]);
    tick(&mut w, 7, 2, "/r1", u64::MAX - 1);
    assert_eq!(w.watch(7, 2, Some(links("/r1")), u64::MAX - 1), Reload::Config);
    assert!(w.settle(Some("bad".to_string()), u64::MAX - 1));
    w.seen();
    assert_eq!(tick(&mut w, 7, 2, "/r1", u64::MAX), Reload::Nothing);
}

#[test]
fn listener_messages_are_exact() {
    assert_eq!(bind_addr("[::]", "443"), "[::]:443");
    assert_eq!(bind_failed("HTTP", "h:80", "in use"), "cannot bind HTTP on h:80: in use");
    assert_eq!(
        rebind_failed("HTTPS", "h:2", "in use", "h:1"),
        "cannot rebind HTTPS to h:2: in use; staying on h:1"
    );
}
