//! Hot reload: what a tick of the watcher decides.
//!
//! Every tick looks at the configuration file, at the certificates, at where the
//! document roots lead, and at each site's tree. A change has to stay for one
//! tick before it is applied, so that nothing half-written goes live. What fails
//! leaves the running state as it is and is tried again, less and less often.
//! Times are nanoseconds.
use std::sync::Arc;

use vstd::hash_map::StringHashMap;
use vstd::prelude::*;
use vstd::string::StringExecFns;
use vstd::utf8::encode_utf8;

use crate::cache::{cache_bytes, SiteCache};
use crate::signature::{comes_before, is_before};
use crate::text::{opt_text, same_str, strings};
use crate::vhosts::{error_page_bytes, page_bytes, Site, Vhosts};

verus! {

/// The time between two ticks.
pub const WATCH_INTERVAL: u64 = 2_000_000_000;

/// The longest delay before a failed reload is tried again.
pub const MAX_RELOAD_BACKOFF: u64 = 60_000_000_000;

// ----------------------------------------------------------------------- keys

/// The key of one site's tree. Two sites may share a root, so the root alone
/// does not tell whose cache is meant; a host name is unique.
pub open spec fn tree_key(host: Seq<char>, root: Seq<char>) -> Seq<char> {
    host + "\u{0}"@ + root
}

/// Makes the key of one site's tree.
pub fn site_key(host: &str, root: &str) -> (r: String)
    ensures
        r@ == tree_key(host@, root@),
{
    let mut s = host.to_string();
    s.append("\u{0}");
    s.append(root);
    s
}

/// The name by which a site is known from one tick to the next: the first of its
/// host names in the order of their bytes.
pub fn site_name(site: &Site) -> (r: &String)
    requires
        site.hosts@.len() > 0,
    ensures
        site.hosts@.contains(*r),
        forall|i: int|
            0 <= i < site.hosts@.len() ==> !comes_before(
                encode_utf8((#[trigger] site.hosts@[i])@),
                encode_utf8(r@),
            ),
{
    let mut best: usize = 0;
    let mut i: usize = 1;
    proof {
        crate::signature::lemma_before_irreflexive(encode_utf8(site.hosts@[0]@));
    }
    while i < site.hosts.len()
        invariant
            0 <= best < i <= site.hosts@.len(),
            forall|j: int|
                0 <= j < i ==> !comes_before(
                    encode_utf8((#[trigger] site.hosts@[j])@),
                    encode_utf8(site.hosts@[best as int]@),
                ),
        decreases site.hosts.len() - i,
    {
        let here = site.hosts[i].as_str().as_bytes();
        let least = site.hosts[best].as_str().as_bytes();
        if is_before(here, least) {
            proof {
                let h = encode_utf8(site.hosts@[i as int]@);
                let l = encode_utf8(site.hosts@[best as int]@);
                crate::signature::lemma_before_irreflexive(h);
                assert forall|j: int| 0 <= j < i + 1 implies !comes_before(
                    encode_utf8((#[trigger] site.hosts@[j])@),
                    h,
                ) by {
                    if j < i && comes_before(encode_utf8(site.hosts@[j]@), h) {
                        crate::signature::lemma_before_transitive(
                            encode_utf8(site.hosts@[j]@),
                            h,
                            l,
                        );
                    }
                }
            }
            best = i;
        }
        i = i + 1;
    }
    &site.hosts[best]
}

// ---------------------------------------------------------------------- state

/// What a document root is written as and where it leads.
pub open spec fn link_texts(v: Seq<(String, String)>) -> Seq<(Seq<char>, Seq<char>)> {
    Seq::new(v.len(), |i: int| (v[i].0@, v[i].1@))
}

/// The same, where the configuration could be read.
pub open spec fn opt_links(v: Option<Vec<(String, String)>>) -> Option<
    Seq<(Seq<char>, Seq<char>)>,
> {
    match v {
        Some(v) => Some(link_texts(v@)),
        None => None,
    }
}

/// The addresses that the live configuration asks for.
pub open spec fn addr_texts(p: Option<(String, Option<String>)>) -> Option<
    (Seq<char>, Option<Seq<char>>),
> {
    match p {
        Some((https, http)) => Some((https@, opt_text(http))),
        None => None,
    }
}

/// The state of the watcher.
#[verifier::ext_equal]
pub struct WatchModel {
    pub cfg_applied: u64,
    pub cfg_last: u64,
    pub cfg_now: u64,
    pub tls_applied: u64,
    pub tls_last: u64,
    pub tls_now: u64,
    pub links_applied: Seq<(Seq<char>, Seq<char>)>,
    pub links_last: Option<Seq<(Seq<char>, Seq<char>)>>,
    pub links_now: Option<Seq<(Seq<char>, Seq<char>)>>,
    pub tls_files: Seq<Seq<char>>,
    pub tree_applied: Map<Seq<char>, u64>,
    pub tree_last: Map<Seq<char>, u64>,
    pub tree_failed: Map<Seq<char>, u64>,
    pub pending: Option<(Seq<char>, Option<Seq<char>>)>,
    pub retry_at: Option<u128>,
    pub backoff: u64,
    pub failed_at: Option<(u64, u64)>,
    pub last_err: Option<Seq<char>>,
}

/// The watcher.
pub struct Watcher {
    /// Signatures of the configuration file: as applied, at the last tick, now.
    cfg_applied: u64,
    cfg_last: u64,
    cfg_now: u64,
    /// Signatures of the certificates and keys.
    tls_applied: u64,
    tls_last: u64,
    tls_now: u64,
    /// Where each configured root leads.
    links_applied: Vec<(String, String)>,
    links_last: Option<Vec<(String, String)>>,
    links_now: Option<Vec<(String, String)>>,
    /// The certificate and key files that are watched.
    tls_files: Vec<String>,
    /// Signatures of the trees, by [`tree_key`].
    tree_applied: StringHashMap<u64>,
    tree_last: StringHashMap<u64>,
    /// The signature with which a tree last failed, so that one failure is said
    /// once.
    tree_failed: StringHashMap<u64>,
    /// Listeners still to be brought in line. Kept apart from the rest, so that
    /// a busy port is tried again without building the sites again.
    pending: Option<(String, Option<String>)>,
    /// Wider than a time, so that no delay runs past the end of the clock.
    retry_at: Option<u128>,
    backoff: u64,
    /// The signatures of the last failure: other ones are another matter.
    failed_at: Option<(u64, u64)>,
    last_err: Option<String>,
}

impl View for Watcher {
    type V = WatchModel;

    closed spec fn view(&self) -> WatchModel {
        WatchModel {
            cfg_applied: self.cfg_applied,
            cfg_last: self.cfg_last,
            cfg_now: self.cfg_now,
            tls_applied: self.tls_applied,
            tls_last: self.tls_last,
            tls_now: self.tls_now,
            links_applied: link_texts(self.links_applied@),
            links_last: opt_links(self.links_last),
            links_now: opt_links(self.links_now),
            tls_files: strings(self.tls_files@),
            tree_applied: self.tree_applied@,
            tree_last: self.tree_last@,
            tree_failed: self.tree_failed@,
            pending: addr_texts(self.pending),
            retry_at: self.retry_at,
            backoff: self.backoff,
            failed_at: self.failed_at,
            last_err: opt_text(self.last_err),
        }
    }
}

/// The tree of one host name of a site: its signature from before the site was
/// built, if there is one, and its signature now.
pub struct TreeSeed {
    pub host: String,
    pub root: String,
    pub sampled: Option<u64>,
    pub fresh: u64,
}

/// The key of a seed.
pub open spec fn seed_key(s: TreeSeed) -> Seq<char> {
    tree_key(s.host@, s.root@)
}

/// The signatures that count as applied at boot: those from before the build,
/// so that what changed during it is picked up.
pub open spec fn boot_applied(seeds: Seq<TreeSeed>) -> Map<Seq<char>, u64>
    decreases seeds.len(),
{
    if seeds.len() == 0 {
        Map::empty()
    } else {
        let rest = boot_applied(seeds.drop_last());
        match seeds.last().sampled {
            Some(sig) => rest.insert(seed_key(seeds.last()), sig),
            None => rest,
        }
    }
}

/// The signatures that count as applied after a reload: those from before the
/// build, or, of a tree that was not sampled, those of now.
pub open spec fn reload_applied(seeds: Seq<TreeSeed>) -> Map<Seq<char>, u64>
    decreases seeds.len(),
{
    if seeds.len() == 0 {
        Map::empty()
    } else {
        let sig = match seeds.last().sampled {
            Some(sig) => sig,
            None => seeds.last().fresh,
        };
        reload_applied(seeds.drop_last()).insert(seed_key(seeds.last()), sig)
    }
}

/// The signatures of now.
pub open spec fn seeds_fresh(seeds: Seq<TreeSeed>) -> Map<Seq<char>, u64>
    decreases seeds.len(),
{
    if seeds.len() == 0 {
        Map::empty()
    } else {
        seeds_fresh(seeds.drop_last()).insert(seed_key(seeds.last()), seeds.last().fresh)
    }
}

fn fresh_map(seeds: &Vec<TreeSeed>) -> (r: StringHashMap<u64>)
    ensures
        r@ == seeds_fresh(seeds@),
{
    let mut m: StringHashMap<u64> = StringHashMap::new();
    let mut i: usize = 0;
    assert(seeds@.take(0) =~= seq![]);
    while i < seeds.len()
        invariant
            0 <= i <= seeds.len(),
            m@ == seeds_fresh(seeds@.take(i as int)),
        decreases seeds.len() - i,
    {
        assert(seeds@.take(i + 1).drop_last() == seeds@.take(i as int));
        m.insert(site_key(seeds[i].host.as_str(), seeds[i].root.as_str()), seeds[i].fresh);
        i = i + 1;
    }
    assert(seeds@.take(seeds.len() as int) == seeds@);
    m
}

fn boot_map(seeds: &Vec<TreeSeed>) -> (r: StringHashMap<u64>)
    ensures
        r@ == boot_applied(seeds@),
{
    let mut m: StringHashMap<u64> = StringHashMap::new();
    let mut i: usize = 0;
    assert(seeds@.take(0) =~= seq![]);
    while i < seeds.len()
        invariant
            0 <= i <= seeds.len(),
            m@ == boot_applied(seeds@.take(i as int)),
        decreases seeds.len() - i,
    {
        assert(seeds@.take(i + 1).drop_last() == seeds@.take(i as int));
        if let Some(sig) = seeds[i].sampled {
            m.insert(site_key(seeds[i].host.as_str(), seeds[i].root.as_str()), sig);
        }
        i = i + 1;
    }
    assert(seeds@.take(seeds.len() as int) == seeds@);
    m
}

fn reload_map(seeds: &Vec<TreeSeed>) -> (r: StringHashMap<u64>)
    ensures
        r@ == reload_applied(seeds@),
{
    let mut m: StringHashMap<u64> = StringHashMap::new();
    let mut i: usize = 0;
    assert(seeds@.take(0) =~= seq![]);
    while i < seeds.len()
        invariant
            0 <= i <= seeds.len(),
            m@ == reload_applied(seeds@.take(i as int)),
        decreases seeds.len() - i,
    {
        assert(seeds@.take(i + 1).drop_last() == seeds@.take(i as int));
        let sig: u64 = match seeds[i].sampled {
            Some(sig) => sig,
            None => seeds[i].fresh,
        };
        m.insert(site_key(seeds[i].host.as_str(), seeds[i].root.as_str()), sig);
        i = i + 1;
    }
    assert(seeds@.take(seeds.len() as int) == seeds@);
    m
}

fn same_links(a: &Vec<(String, String)>, b: &Vec<(String, String)>) -> (r: bool)
    ensures
        r == (link_texts(a@) == link_texts(b@)),
{
    if a.len() != b.len() {
        assert(link_texts(a@).len() != link_texts(b@).len());
        return false;
    }
    let mut i: usize = 0;
    while i < a.len()
        invariant
            0 <= i <= a.len(),
            a.len() == b.len(),
            forall|j: int| 0 <= j < i ==> #[trigger] link_texts(a@)[j] == link_texts(b@)[j],
        decreases a.len() - i,
    {
        if !same_str(a[i].0.as_str(), b[i].0.as_str()) || !same_str(
            a[i].1.as_str(),
            b[i].1.as_str(),
        ) {
            assert(link_texts(a@)[i as int] != link_texts(b@)[i as int]);
            return false;
        }
        assert(link_texts(a@)[i as int] == link_texts(b@)[i as int]);
        i = i + 1;
    }
    assert(link_texts(a@) =~= link_texts(b@));
    true
}

// ----------------------------------------------------------------- the reloads

/// What a tick rebuilds.
#[derive(Clone, Copy, PartialEq, Eq, Debug, Structural)]
pub enum Reload {
    Nothing,
    /// Everything, from the configuration file on.
    Config,
    /// The certificates only: a renewal must not cost a walk of every site.
    Tls,
    /// Nothing but the listeners that are still to be brought in line.
    Listeners,
}

/// The state once a tick has looked around. Other signatures than those of the
/// last failure lift the delay, so that a fix is picked up at once.
pub open spec fn looked(
    w: WatchModel,
    cfg_now: u64,
    tls_now: u64,
    links_now: Option<Seq<(Seq<char>, Seq<char>)>>,
) -> WatchModel {
    let fixed = w.failed_at is Some && w.failed_at != Some((cfg_now, tls_now));
    WatchModel {
        cfg_now,
        tls_now,
        links_now,
        retry_at: if fixed {
            None
        } else {
            w.retry_at
        },
        backoff: if fixed {
            WATCH_INTERVAL
        } else {
            w.backoff
        },
        failed_at: if fixed {
            None
        } else {
            w.failed_at
        },
        ..w
    }
}

/// A root leads elsewhere than when it was applied, and did so a tick ago.
pub open spec fn links_changed(w: WatchModel) -> bool {
    w.links_now is Some && w.links_now != Some(w.links_applied) && w.links_now == w.links_last
}

/// The configuration differs from the one applied, and did so a tick ago.
pub open spec fn cfg_changed(w: WatchModel) -> bool {
    (w.cfg_now != w.cfg_applied && w.cfg_now == w.cfg_last) || links_changed(w)
}

/// The certificates differ from those applied, and did so a tick ago.
pub open spec fn tls_changed(w: WatchModel) -> bool {
    w.tls_now != w.tls_applied && w.tls_now == w.tls_last
}

/// What a tick rebuilds, once it has looked around.
pub open spec fn reload_of(w: WatchModel, now: u64) -> Reload {
    if w.retry_at matches Some(t) && now < t {
        Reload::Nothing
    } else if cfg_changed(w) {
        Reload::Config
    } else if tls_changed(w) {
        Reload::Tls
    } else if w.pending is Some {
        Reload::Listeners
    } else {
        Reload::Nothing
    }
}

/// What runs: the sites with their content, the certificates, and the limits that
/// hold for connections.
pub struct Running<S, C> {
    pub sites: S,
    pub certs: C,
    pub max_conns_per_ip: usize,
    pub max_response_secs: u64,
}

/// What building everything anew gave. `tls` and the seeds' samples come from
/// before the build.
pub struct Built<S, C> {
    pub running: Running<S, C>,
    pub links: Vec<(String, String)>,
    pub tls_files: Vec<String>,
    pub tls: u64,
    pub tls_now: u64,
    pub seeds: Vec<TreeSeed>,
    /// The addresses that the configuration asks for.
    pub https: String,
    pub http: Option<String>,
}

/// The state, and what runs, after everything was to be built anew.
pub open spec fn with_config<S, C>(
    w: WatchModel,
    running: Running<S, C>,
    built: Result<Built<S, C>, String>,
) -> (WatchModel, Running<S, C>) {
    match built {
        Err(_) => (w, running),
        Ok(b) => (
            WatchModel {
                cfg_applied: w.cfg_now,
                links_applied: link_texts(b.links@),
                tls_files: strings(b.tls_files@),
                tls_applied: b.tls,
                tls_now: b.tls_now,
                tree_applied: reload_applied(b.seeds@),
                tree_last: seeds_fresh(b.seeds@),
                pending: Some((b.https@, opt_text(b.http))),
                ..w
            },
            b.running,
        ),
    }
}

/// The state, and what runs, after the certificates were to be loaded anew.
pub open spec fn with_certs<S, C>(
    w: WatchModel,
    running: Running<S, C>,
    built: Result<C, String>,
) -> (WatchModel, Running<S, C>) {
    match built {
        Err(_) => (w, running),
        Ok(certs) => (
            WatchModel { tls_applied: w.tls_now, ..w },
            Running { certs, ..running },
        ),
    }
}

/// What is done about the plain-HTTP listener, given the one there is and the
/// one that is asked for.
#[derive(Clone, Copy, PartialEq, Eq, Debug, Structural)]
pub enum HttpPlan {
    Nothing,
    Rebind,
    Retire,
    Start,
}

/// What is done about the plain-HTTP listener, given whether there is one and
/// whether one is asked for.
pub open spec fn plan_of(have: bool, want: bool) -> HttpPlan {
    match (have, want) {
        (true, true) => HttpPlan::Rebind,
        (true, false) => HttpPlan::Retire,
        (false, true) => HttpPlan::Start,
        (false, false) => HttpPlan::Nothing,
    }
}

/// Decides what is done about the plain-HTTP listener.
pub fn http_plan(have: bool, want: bool) -> (r: HttpPlan)
    ensures
        r == plan_of(have, want),
{
    if have {
        if want {
            HttpPlan::Rebind
        } else {
            HttpPlan::Retire
        }
    } else if want {
        HttpPlan::Start
    } else {
        HttpPlan::Nothing
    }
}

/// The next thing to do about the listeners.
#[derive(Clone, Copy, PartialEq, Eq, Debug, Structural)]
pub enum Move {
    /// Bring the HTTPS listener to its address.
    Https,
    /// Do this about the plain one.
    Http(HttpPlan),
    /// Nothing: they are in line.
    Settled,
    /// Nothing for now: an address could not be bound, and the rest waits for the
    /// next attempt.
    Stuck,
}

/// What came of the last [`Move`].
pub enum Moved {
    /// None was made yet.
    Start,
    Https(Result<(), String>),
    Http(Result<(), String>),
}

/// What comes next. The plain listener is looked at only once the HTTPS listener
/// is settled: retiring it cannot be undone, so doing that first could leave
/// neither address right.
pub open spec fn move_after(moved: Moved, have: bool, want: bool) -> Move {
    match moved {
        Moved::Start => Move::Https,
        Moved::Https(Ok(_)) => if plan_of(have, want) == HttpPlan::Nothing {
            Move::Settled
        } else {
            Move::Http(plan_of(have, want))
        },
        Moved::Http(Ok(_)) => Move::Settled,
        Moved::Https(Err(_)) => Move::Stuck,
        Moved::Http(Err(_)) => Move::Stuck,
    }
}

/// What a move failed with, if it did.
pub open spec fn moved_error(moved: Moved) -> Option<Seq<char>> {
    match moved {
        Moved::Https(Err(e)) => Some(e@),
        Moved::Http(Err(e)) => Some(e@),
        _ => None,
    }
}

/// The first of two failures.
pub open spec fn first_failure(
    earlier: Option<Seq<char>>,
    later: Option<Seq<char>>,
) -> Option<Seq<char>> {
    match earlier {
        Some(e) => Some(e),
        None => later,
    }
}

/// What comes next for the listeners of a watcher.
pub open spec fn listeners_move(w: WatchModel, moved: Moved, have: bool) -> Move {
    match w.pending {
        Some((_, http)) => move_after(moved, have, http is Some),
        None => Move::Settled,
    }
}

/// A delay doubled, up to the longest.
pub open spec fn doubled(backoff: u64) -> u64 {
    if 2 * backoff < MAX_RELOAD_BACKOFF {
        (2 * backoff) as u64
    } else {
        MAX_RELOAD_BACKOFF
    }
}

/// The state after a reload that was tried.
pub open spec fn settled(w: WatchModel, failure: Option<Seq<char>>, now: u64) -> WatchModel {
    match failure {
        None => WatchModel {
            retry_at: None,
            backoff: WATCH_INTERVAL,
            failed_at: None,
            last_err: None,
            ..w
        },
        Some(e) => WatchModel {
            retry_at: Some((now + w.backoff) as u128),
            backoff: doubled(w.backoff),
            failed_at: Some((w.cfg_now, w.tls_now)),
            last_err: Some(e),
            ..w
        },
    }
}

/// A site's tree is to be loaded again: it differs from the one applied, and did
/// so a tick ago. A tree that is not known yet is taken as it is.
pub open spec fn tree_due(w: WatchModel, key: Seq<char>, sig: u64) -> bool {
    let last = if w.tree_last.contains_key(key) {
        w.tree_last[key]
    } else {
        sig
    };
    let applied = if w.tree_applied.contains_key(key) {
        w.tree_applied[key]
    } else {
        sig
    };
    sig != applied && sig == last
}

/// The state after a site's tree was loaded again, or could not be. A failure
/// leaves what is applied as it is, so that it is tried at the next tick.
pub open spec fn tree_settled(w: WatchModel, key: Seq<char>, sig: u64, loaded: bool) -> WatchModel {
    if loaded {
        WatchModel {
            tree_applied: w.tree_applied.insert(key, sig),
            tree_failed: w.tree_failed.remove(key),
            ..w
        }
    } else {
        WatchModel { tree_failed: w.tree_failed.insert(key, sig), ..w }
    }
}

impl Watcher {
    /// The delay is within bounds.
    pub open spec fn wf(&self) -> bool {
        WATCH_INTERVAL <= self@.backoff <= MAX_RELOAD_BACKOFF
    }

    /// A watcher for a running server. What is applied comes from before the
    /// build, what was seen last from after it: where they differ, the next
    /// ticks reload.
    pub fn new(
        cfg_applied: u64,
        cfg_last: u64,
        tls_files: Vec<String>,
        tls_applied: u64,
        tls_last: u64,
        links_applied: Vec<(String, String)>,
        links_last: Option<Vec<(String, String)>>,
        seeds: &Vec<TreeSeed>,
    ) -> (r: Watcher)
        ensures
            r.wf(),
            r@ == (WatchModel {
                cfg_applied,
                cfg_last,
                cfg_now: cfg_last,
                tls_applied,
                tls_last,
                tls_now: tls_last,
                links_applied: link_texts(links_applied@),
                links_last: opt_links(links_last),
                links_now: None,
                tls_files: strings(tls_files@),
                tree_applied: boot_applied(seeds@),
                tree_last: seeds_fresh(seeds@),
                tree_failed: Map::empty(),
                pending: None,
                retry_at: None,
                backoff: WATCH_INTERVAL,
                failed_at: None,
                last_err: None,
            }),
    {
        Watcher {
            cfg_applied,
            cfg_last,
            cfg_now: cfg_last,
            tls_applied,
            tls_last,
            tls_now: tls_last,
            links_applied,
            links_last,
            links_now: None,
            tls_files,
            tree_applied: boot_map(seeds),
            tree_last: fresh_map(seeds),
            tree_failed: StringHashMap::new(),
            pending: None,
            retry_at: None,
            backoff: WATCH_INTERVAL,
            failed_at: None,
            last_err: None,
        }
    }

    /// The certificate and key files to watch.
    pub fn tls_files(&self) -> (r: &Vec<String>)
        ensures
            strings(r@) == self@.tls_files,
    {
        &self.tls_files
    }

    /// Looks around and decides what to rebuild.
    pub fn watch(
        &mut self,
        cfg_now: u64,
        tls_now: u64,
        links_now: Option<Vec<(String, String)>>,
        now: u64,
    ) -> (r: Reload)
        requires
            old(self).wf(),
        ensures
            final(self).wf(),
            final(self)@ == looked(old(self)@, cfg_now, tls_now, opt_links(links_now)),
            r == reload_of(final(self)@, now),
    {
        if let Some(at) = self.failed_at {
            if at.0 != cfg_now || at.1 != tls_now {
                self.retry_at = None;
                self.backoff = WATCH_INTERVAL;
                self.failed_at = None;
            }
        }
        self.cfg_now = cfg_now;
        self.tls_now = tls_now;
        let links_moved = match (&links_now, &self.links_last) {
            (Some(l), Some(last)) => !same_links(l, &self.links_applied) && same_links(l, last),
            _ => false,
        };
        self.links_now = links_now;
        assert(links_moved == links_changed(self@));
        if let Some(t) = self.retry_at {
            if (now as u128) < t {
                return Reload::Nothing;
            }
        }
        if (cfg_now != self.cfg_applied && cfg_now == self.cfg_last) || links_moved {
            Reload::Config
        } else if tls_now != self.tls_applied && tls_now == self.tls_last {
            Reload::Tls
        } else if self.pending.is_some() {
            Reload::Listeners
        } else {
            Reload::Nothing
        }
    }

    /// Takes what came of building everything anew. Where it failed, what runs is
    /// left as it is, and so is all that counts as applied; otherwise the new sites,
    /// certificates and limits run, and the listeners are still to be brought in
    /// line. The result is the failure.
    pub fn config_tried<S, C>(
        &mut self,
        running: &mut Running<S, C>,
        built: Result<Built<S, C>, String>,
    ) -> (r: Option<String>)
        requires
            old(self).wf(),
        ensures
            final(self).wf(),
            (final(self)@, *final(running)) == with_config(old(self)@, *old(running), built),
            r == (match built {
                Ok(_) => None,
                Err(e) => Some(e),
            }),
    {
        match built {
            Err(e) => Some(e),
            Ok(b) => {
                self.cfg_applied = self.cfg_now;
                self.links_applied = b.links;
                self.tls_files = b.tls_files;
                self.tls_applied = b.tls;
                self.tls_now = b.tls_now;
                self.tree_applied = reload_map(&b.seeds);
                self.tree_last = fresh_map(&b.seeds);
                self.pending = Some((b.https, b.http));
                *running = b.running;
                None
            },
        }
    }

    /// Takes what came of loading the certificates anew. Where it failed, nothing
    /// changes; otherwise the new ones run, over the sites that are there. The
    /// result is the failure.
    pub fn tls_tried<S, C>(
        &mut self,
        running: &mut Running<S, C>,
        built: Result<C, String>,
    ) -> (r: Option<String>)
        requires
            old(self).wf(),
        ensures
            final(self).wf(),
            (final(self)@, *final(running)) == with_certs(old(self)@, *old(running), built),
            r == (match built {
                Ok(_) => None,
                Err(e) => Some(e),
            }),
    {
        match built {
            Err(e) => Some(e),
            Ok(certs) => {
                self.tls_applied = self.tls_now;
                running.certs = certs;
                None
            },
        }
    }

    /// The addresses that the listeners are still to be brought to.
    pub fn pending(&self) -> (r: &Option<(String, Option<String>)>)
        ensures
            addr_texts(*r) == self@.pending,
    {
        &self.pending
    }

    /// Takes what came of the last move of the listeners, and says what comes next;
    /// `have_http` is whether there is a plain listener. Once they are in line,
    /// nothing is pending any more; until then it stays so, and the whole of it is
    /// tried again. Of several failures of one reload the first is kept.
    pub fn listeners_moved(
        &mut self,
        moved: Moved,
        have_http: bool,
        failure: &mut Option<String>,
    ) -> (r: Move)
        requires
            old(self).wf(),
        ensures
            final(self).wf(),
            r == listeners_move(old(self)@, moved, have_http),
            final(self)@ == (WatchModel {
                pending: if r == Move::Settled {
                    None
                } else {
                    old(self)@.pending
                },
                ..old(self)@
            }),
            opt_text(*final(failure)) == (if old(self)@.pending is Some {
                first_failure(opt_text(*old(failure)), moved_error(moved))
            } else {
                opt_text(*old(failure))
            }),
    {
        let want_http = match &self.pending {
            Some(p) => p.1.is_some(),
            None => {
                return Move::Settled;
            },
        };
        let plan = http_plan(have_http, want_http);
        match moved {
            Moved::Start => Move::Https,
            Moved::Https(Ok(_)) if plan != HttpPlan::Nothing => Move::Http(plan),
            Moved::Https(Ok(_)) | Moved::Http(Ok(_)) => {
                self.pending = None;
                Move::Settled
            },
            Moved::Https(Err(e)) | Moved::Http(Err(e)) => {
                if failure.is_none() {
                    *failure = Some(e);
                }
                Move::Stuck
            },
        }
    }

    /// Notes how a reload went. The result says whether a failure is to be
    /// reported: the first time, and when its cause changes.
    pub fn settle(&mut self, failure: Option<String>, now: u64) -> (r: bool)
        requires
            old(self).wf(),
        ensures
            final(self).wf(),
            final(self)@ == settled(old(self)@, opt_text(failure), now),
            r == (failure is Some && old(self)@.last_err != opt_text(failure)),
    {
        match failure {
            None => {
                self.retry_at = None;
                self.backoff = WATCH_INTERVAL;
                self.failed_at = None;
                self.last_err = None;
                false
            },
            Some(e) => {
                let known = match &self.last_err {
                    Some(last) => same_str(last.as_str(), e.as_str()),
                    None => false,
                };
                self.last_err = Some(e);
                self.failed_at = Some((self.cfg_now, self.tls_now));
                self.retry_at = Some(now as u128 + self.backoff as u128);
                self.backoff = if self.backoff * 2 < MAX_RELOAD_BACKOFF {
                    self.backoff * 2
                } else {
                    MAX_RELOAD_BACKOFF
                };
                !known
            },
        }
    }

    /// Ends the part of a tick that is about the configuration and the
    /// certificates: what is seen now is what the next tick compares with.
    pub fn seen(&mut self)
        requires
            old(self).wf(),
        ensures
            final(self).wf(),
            final(self)@.cfg_last == old(self)@.cfg_now,
            final(self)@.tls_last == old(self)@.tls_now,
            final(self)@.links_last == old(self)@.links_now,
            final(self)@ == (WatchModel {
                cfg_last: old(self)@.cfg_now,
                tls_last: old(self)@.tls_now,
                links_last: old(self)@.links_now,
                links_now: None,
                ..old(self)@
            }),
    {
        self.cfg_last = self.cfg_now;
        self.tls_last = self.tls_now;
        self.links_last = self.links_now.take();
    }

    /// Decides whether a site's tree is to be loaded again.
    pub fn content_due(&self, key: &str, sig: u64) -> (r: bool)
        ensures
            r == tree_due(self@, key@, sig),
    {
        let last: u64 = match self.tree_last.get(key) {
            Some(s) => *s,
            None => sig,
        };
        let applied: u64 = match self.tree_applied.get(key) {
            Some(s) => *s,
            None => sig,
        };
        sig != applied && sig == last
    }

    /// Notes how loading a site's tree went. The result says whether a failure
    /// is to be reported: once per signature.
    pub fn content_settled(&mut self, key: &str, sig: u64, loaded: bool) -> (r: bool)
        requires
            old(self).wf(),
        ensures
            final(self).wf(),
            final(self)@ == tree_settled(old(self)@, key@, sig, loaded),
            r == (!loaded && !(old(self)@.tree_failed.contains_key(key@) && old(self)@.tree_failed[key@] == sig)),
    {
        if loaded {
            self.tree_applied.insert(key.to_string(), sig);
            self.tree_failed.remove(key);
            return false;
        }
        let known = match self.tree_failed.get(key) {
            Some(s) => *s == sig,
            None => false,
        };
        self.tree_failed.insert(key.to_string(), sig);
        !known
    }

    /// Notes what a site's tree looks like at this tick.
    pub fn content_seen(&mut self, key: &str, sig: u64)
        requires
            old(self).wf(),
        ensures
            final(self).wf(),
            final(self)@ == (WatchModel {
                tree_last: old(self)@.tree_last.insert(key@, sig),
                ..old(self)@
            }),
    {
        self.tree_last.insert(key.to_string(), sig);
    }
}

// --------------------------------------------------------------------- budget

/// The bytes that all caches but one hold.
pub open spec fn held_elsewhere(caches: Seq<Arc<SiteCache>>, but: int, count: int) -> nat
    decreases count,
{
    if count <= 0 {
        0
    } else {
        held_elsewhere(caches, but, count - 1) + (if count - 1 == but {
            0
        } else {
            caches[count - 1].held()
        })
    }
}

proof fn lemma_held_grows(caches: Seq<Arc<SiteCache>>, but: int, i: int, n: int)
    requires
        0 <= i <= n,
    ensures
        held_elsewhere(caches, but, i) <= held_elsewhere(caches, but, n),
    decreases n - i,
{
    if i < n {
        lemma_held_grows(caches, but, i, n - 1);
    }
}

/// Counts what is held while one site is loaded again: the caches of the others
/// and every status page. The new cache is charged on top of it, so that a
/// reload cannot pass the budget that all sites share.
pub fn reload_base(vhosts: &Vhosts, caches: &Vec<Arc<SiteCache>>, site: usize) -> (r: usize)
    requires
        forall|i: int| 0 <= i < caches@.len() ==> (#[trigger] caches@[i]).wf(),
        held_elsewhere(caches@, site as int, caches@.len() as int) + page_bytes(*vhosts)
            <= usize::MAX,
    ensures
        r == held_elsewhere(caches@, site as int, caches@.len() as int) + page_bytes(*vhosts),
{
    let mut sum: usize = 0;
    let mut i: usize = 0;
    while i < caches.len()
        invariant
            0 <= i <= caches.len(),
            forall|k: int| 0 <= k < caches@.len() ==> (#[trigger] caches@[k]).wf(),
            held_elsewhere(caches@, site as int, caches@.len() as int) <= usize::MAX,
            sum == held_elsewhere(caches@, site as int, i as int),
        decreases caches.len() - i,
    {
        proof {
            lemma_held_grows(caches@, site as int, i + 1, caches@.len() as int);
            assert(caches@[i as int].wf());
        }
        if i != site {
            sum = sum + cache_bytes(&caches[i]);
        }
        i = i + 1;
    }
    sum + error_page_bytes(vhosts)
}

// ------------------------------------------------------------------- messages

/// What is said where a listener cannot move.
pub fn rebind_failed(label: &str, new_addr: &str, why: &str, addr: &str) -> (r: String)
    ensures
        r@ == "cannot rebind "@ + label@ + " to "@ + new_addr@ + ": "@ + why@ + "; staying on "@ + addr@,
{
    let mut s = "cannot rebind ".to_string();
    s.append(label);
    s.append(" to ");
    s.append(new_addr);
    s.append(": ");
    s.append(why);
    s.append("; staying on ");
    s.append(addr);
    s
}

/// What is said where a listener cannot start.
pub fn bind_failed(label: &str, addr: &str, why: &str) -> (r: String)
    ensures
        r@ == "cannot bind "@ + label@ + " on "@ + addr@ + ": "@ + why@,
{
    let mut s = "cannot bind ".to_string();
    s.append(label);
    s.append(" on ");
    s.append(addr);
    s.append(": ");
    s.append(why);
    s
}

/// A host and a port as an address to bind.
pub fn bind_addr(host: &str, port: &str) -> (r: String)
    ensures
        r@ == host@ + ":"@ + port@,
{
    let mut s = host.to_string();
    s.append(":");
    s.append(port);
    s
}

// ----------------------------------------------------------------------- laws

/// A text without the NUL character.
pub open spec fn nul_free(s: Seq<char>) -> bool {
    forall|i: int| 0 <= i < s.len() ==> #[trigger] s[i] != '\u{0}'
}

/// Two sites never share a slot: keys of names and roots without a NUL are equal
/// only where both parts are.
pub proof fn law_tree_keys_are_distinct(
    host1: Seq<char>,
    root1: Seq<char>,
    host2: Seq<char>,
    root2: Seq<char>,
)
    requires
        nul_free(host1),
        nul_free(host2),
        tree_key(host1, root1) == tree_key(host2, root2),
    ensures
        host1 == host2,
        root1 == root2,
{
    reveal_strlit("\u{0}");
    let k = tree_key(host1, root1);
    assert(k[host1.len() as int] == '\u{0}');
    assert(k[host2.len() as int] == '\u{0}');
    assert forall|i: int| 0 <= i < host1.len() implies k[i] == host1[i] && k[i] != '\u{0}' by {}
    assert forall|i: int| 0 <= i < host2.len() implies k[i] == host2[i] && k[i] != '\u{0}' by {}
    assert(host1.len() == host2.len());
    assert(host1 =~= host2);
    assert(root1 =~= k.skip(host1.len() as int + 1));
    assert(root2 =~= k.skip(host2.len() as int + 1));
}

/// A change is applied only once it has stayed for a tick: whatever a tick
/// rebuilds because of a file looked the same at the tick before.
pub proof fn law_changes_are_debounced(w: WatchModel, now: u64)
    ensures
        reload_of(w, now) == Reload::Config ==> (w.cfg_now == w.cfg_last && w.cfg_now
            != w.cfg_applied) || (w.links_now == w.links_last && w.links_now is Some),
        reload_of(w, now) == Reload::Tls ==> w.tls_now == w.tls_last && w.tls_now != w.tls_applied,
{
}

/// A tree is loaded again only once its change has stayed for a tick.
pub proof fn law_tree_changes_are_debounced(w: WatchModel, key: Seq<char>, sig: u64)
    ensures
        tree_due(w, key, sig) && w.tree_last.contains_key(key) ==> w.tree_last[key] == sig,
{
}

/// A failed reload keeps the running state: nothing that counts as applied
/// changes, and what is still to be done stays to be done.
pub proof fn law_failure_keeps_what_is_applied(w: WatchModel, e: Seq<char>, now: u64)
    ensures
        ({
            let after = settled(w, Some(e), now);
            &&& after.cfg_applied == w.cfg_applied
            &&& after.tls_applied == w.tls_applied
            &&& after.links_applied == w.links_applied
            &&& after.tree_applied == w.tree_applied
            &&& after.pending == w.pending
        }),
{
}

/// A failed reload is tried again: where nothing on disk has moved since, the
/// first tick at or behind the retry rebuilds no less than the failed one did.
pub proof fn law_failure_is_retried(w: WatchModel, e: Seq<char>, then: u64, now: u64)
    requires
        w.backoff <= MAX_RELOAD_BACKOFF,
        then + w.backoff <= now,
        reload_of(w, then) != Reload::Nothing,
    ensures
        ({
            let after = settled(w, Some(e), then);
            let next = WatchModel {
                cfg_last: after.cfg_now,
                tls_last: after.tls_now,
                links_last: after.links_now,
                ..after
            };
            let seen = looked(next, w.cfg_now, w.tls_now, w.links_now);
            &&& reload_of(seen, now) != Reload::Nothing
            &&& reload_of(w, then) == Reload::Config ==> reload_of(seen, now) == Reload::Config
            &&& reload_of(w, then) == Reload::Tls ==> reload_of(seen, now) == Reload::Tls
                || reload_of(seen, now) == Reload::Config
        }),
{
}

/// The state at the tick that looks at `cfg_now` and `tls_now`, after one that
/// failed.
pub open spec fn tick_after_failure(
    w: WatchModel,
    e: Seq<char>,
    then: u64,
    cfg_now: u64,
    tls_now: u64,
    links_now: Option<Seq<(Seq<char>, Seq<char>)>>,
) -> WatchModel {
    let after = settled(w, Some(e), then);
    looked(
        WatchModel {
            cfg_last: after.cfg_now,
            tls_last: after.tls_now,
            links_last: after.links_now,
            links_now: None,
            ..after
        },
        cfg_now,
        tls_now,
        links_now,
    )
}

/// A reload that fails changes nothing: the sites, the certificates and the limits
/// that run stay, and nothing new counts as applied. It is tried again once the
/// delay is over and not before, where nothing on disk has moved, or everything is
/// built anew then, where the configuration has come to rest meanwhile; the delay
/// doubles, up to its longest. Where the files have changed again, no delay
/// stands.
pub proof fn law_a_failed_reload_changes_nothing<S, C>(
    w: WatchModel,
    running: Running<S, C>,
    e: String,
    then: u64,
    now: u64,
    cfg_now: u64,
    tls_now: u64,
    links_now: Option<Seq<(Seq<char>, Seq<char>)>>,
)
    requires
        WATCH_INTERVAL <= w.backoff <= MAX_RELOAD_BACKOFF,
        reload_of(w, then) == Reload::Config || reload_of(w, then) == Reload::Tls,
    ensures
        with_config(w, running, Err(e)) == (w, running),
        with_certs(w, running, Err(e)) == (w, running),
        ({
            let after = settled(w, Some(e@), then);
            &&& after.cfg_applied == w.cfg_applied
            &&& after.tls_applied == w.tls_applied
            &&& after.links_applied == w.links_applied
            &&& after.tree_applied == w.tree_applied
            &&& after.backoff == doubled(w.backoff)
        }),
        ({
            let next = tick_after_failure(w, e@, then, w.cfg_now, w.tls_now, w.links_now);
            &&& now < then + w.backoff ==> reload_of(next, now) == Reload::Nothing
            &&& now >= then + w.backoff ==> reload_of(next, now) == Reload::Config || (reload_of(
                next,
                now,
            ) == Reload::Tls && reload_of(w, then) == Reload::Tls)
        }),
        (cfg_now, tls_now) != (w.cfg_now, w.tls_now) ==> tick_after_failure(
            w,
            e@,
            then,
            cfg_now,
            tls_now,
            links_now,
        ).retry_at is None,
{
}

/// HTTPS comes first: the plain listener is touched only once the HTTPS listener
/// is where it belongs, and the addresses count as settled only once both are. A
/// move that fails leaves them pending.
pub proof fn law_the_plain_listener_waits_for_https(w: WatchModel, moved: Moved, have: bool)
    requires
        w.pending is Some,
    ensures
        moved is Start ==> listeners_move(w, moved, have) == Move::Https,
        listeners_move(w, moved, have) is Http ==> moved matches Moved::Https(Ok(_)),
        listeners_move(w, moved, have) == Move::Settled ==> (moved matches Moved::Http(Ok(_))) || (
        moved matches Moved::Https(Ok(_)) && !have && (w.pending matches Some((_, None)))),
        listeners_move(w, moved, have) == Move::Stuck <==> moved_error(moved) is Some,
{
}

/// A reload reports what failed first, whatever fails behind it.
pub proof fn law_the_first_failure_is_kept(
    build: Option<Seq<char>>,
    https: Option<Seq<char>>,
    http: Option<Seq<char>>,
)
    ensures
        build is Some ==> first_failure(first_failure(build, https), http) == build,
        build is None && https is Some ==> first_failure(first_failure(build, https), http)
            == https,
        first_failure(first_failure(build, https), http) is None <==> build is None && https is None
            && http is None,
{
}

/// A renewal of the certificates keeps the sites and the limits that run.
pub proof fn law_renewals_keep_the_sites<S, C>(w: WatchModel, running: Running<S, C>, certs: C)
    ensures
        ({
            let (after, now) = with_certs(w, running, Ok::<C, String>(certs));
            &&& now.certs == certs
            &&& now.sites == running.sites
            &&& now.max_conns_per_ip == running.max_conns_per_ip
            &&& now.max_response_secs == running.max_response_secs
            &&& after.tree_applied == w.tree_applied
            &&& after.cfg_applied == w.cfg_applied
        }),
{
}

/// A fix is picked up at once: signatures other than those of the failure lift
/// the delay.
pub proof fn law_a_fix_lifts_the_delay(
    w: WatchModel,
    cfg_now: u64,
    tls_now: u64,
    links_now: Option<Seq<(Seq<char>, Seq<char>)>>,
)
    requires
        w.failed_at is Some,
        w.failed_at != Some((cfg_now, tls_now)),
    ensures
        looked(w, cfg_now, tls_now, links_now).retry_at is None,
        looked(w, cfg_now, tls_now, links_now).backoff == WATCH_INTERVAL,
{
}

/// The delay between two attempts never shrinks while they fail, and never
/// passes its longest.
pub proof fn law_the_delay_is_bounded(backoff: u64)
    requires
        WATCH_INTERVAL <= backoff <= MAX_RELOAD_BACKOFF,
    ensures
        backoff <= doubled(backoff) <= MAX_RELOAD_BACKOFF,
        2 * backoff <= MAX_RELOAD_BACKOFF ==> doubled(backoff) == 2 * backoff,
{
}

/// A tree that could not be loaded is due again: a failure does not count as
/// applied.
pub proof fn law_a_failed_tree_stays_due(w: WatchModel, key: Seq<char>, sig: u64)
    requires
        tree_due(w, key, sig),
    ensures
        ({
            let after = tree_settled(w, key, sig, false);
            tree_due(
                WatchModel { tree_last: after.tree_last.insert(key, sig), ..after },
                key,
                sig,
            )
        }),
{
}

/// A tree that was loaded is not due until it changes.
pub proof fn law_a_loaded_tree_is_not_due(w: WatchModel, key: Seq<char>, sig: u64)
    ensures
        !tree_due(tree_settled(w, key, sig, true), key, sig),
{
}

// -------------------------------------------------------------- what ticks decide

/// A change that has stayed for a tick is applied at once, where no delay stands. A
/// configuration that differs from the one applied, and so does a root that leads
/// elsewhere, builds everything anew; otherwise certificates that differ are loaded
/// anew; otherwise listeners that are still to be moved are; otherwise nothing is done.
pub proof fn law_a_change_that_stays_is_applied(
    w: WatchModel,
    cfg_now: u64,
    tls_now: u64,
    links_now: Option<Seq<(Seq<char>, Seq<char>)>>,
    now: u64,
)
    requires
        w.retry_at is None,
    ensures
        ({
            let r = reload_of(looked(w, cfg_now, tls_now, links_now), now);
            let cfg = cfg_now != w.cfg_applied && cfg_now == w.cfg_last;
            let moved = links_now is Some && links_now->0 != w.links_applied && links_now
                == w.links_last;
            let certs = tls_now != w.tls_applied && tls_now == w.tls_last;
            &&& cfg || moved ==> r == Reload::Config
            &&& !cfg && !moved && certs ==> r == Reload::Tls
            &&& !cfg && !moved && !certs && w.pending is Some ==> r == Reload::Listeners
            &&& !cfg && !moved && !certs && w.pending is None ==> r == Reload::Nothing
        }),
{
}

/// While a delay stands nothing is rebuilt, unless the files are not those of the
/// failure any more.
pub proof fn law_a_delay_stands_until_it_is_over(
    w: WatchModel,
    links_now: Option<Seq<(Seq<char>, Seq<char>)>>,
    t: u128,
    now: u64,
)
    requires
        w.retry_at == Some(t),
        w.failed_at is Some,
    ensures
        ({
            let (cfg, tls) = w.failed_at->0;
            let same = looked(w, cfg, tls, links_now);
            &&& same.retry_at == Some(t) && same.backoff == w.backoff
            &&& now < t ==> reload_of(same, now) == Reload::Nothing
        }),
{
}

/// What a tick notes of what it looked at, and what it leaves.
pub proof fn law_a_tick_notes_what_it_saw(
    w: WatchModel,
    cfg_now: u64,
    tls_now: u64,
    links_now: Option<Seq<(Seq<char>, Seq<char>)>>,
)
    ensures
        ({
            let s = looked(w, cfg_now, tls_now, links_now);
            &&& s.cfg_now == cfg_now && s.tls_now == tls_now && s.links_now == links_now
            &&& s.cfg_applied == w.cfg_applied && s.tls_applied == w.tls_applied
            &&& s.links_applied == w.links_applied && s.tree_applied == w.tree_applied
            &&& s.cfg_last == w.cfg_last && s.tls_last == w.tls_last && s.links_last == w.links_last
            &&& s.tree_last == w.tree_last && s.tree_failed == w.tree_failed
            &&& s.pending == w.pending && s.tls_files == w.tls_files && s.last_err == w.last_err
        }),
{
}

/// What a reload of everything that succeeds records: the configuration that was seen
/// counts as applied, with the roots, the certificates and the trees from before it
/// was built; the listeners are to be moved to its addresses; and what was built runs.
pub proof fn law_what_a_reload_records<S, C>(
    w: WatchModel,
    running: Running<S, C>,
    b: Built<S, C>,
    certs: C,
)
    ensures
        ({
            let (s, live) = with_config(w, running, Ok::<Built<S, C>, String>(b));
            &&& live == b.running
            &&& s.cfg_applied == w.cfg_now
            &&& s.links_applied == link_texts(b.links@)
            &&& s.tls_applied == b.tls && s.tls_now == b.tls_now
            &&& s.tls_files == strings(b.tls_files@)
            &&& s.tree_applied == reload_applied(b.seeds@)
            &&& s.tree_last == seeds_fresh(b.seeds@)
            &&& s.pending == Some((b.https@, opt_text(b.http)))
            &&& s.cfg_now == w.cfg_now && s.links_now == w.links_now && s.retry_at == w.retry_at
            &&& s.failed_at == w.failed_at && s.backoff == w.backoff
        }),
        with_certs(w, running, Ok::<C, String>(certs)).0.tls_applied == w.tls_now,
        with_certs(w, running, Ok::<C, String>(certs)).0.pending == w.pending,
{
}

/// Which signatures count as applied, tree by tree: those from before the build; of a
/// tree that was not sampled then, at boot none and at a reload that of now. What was
/// seen last is what is there now.
pub proof fn law_which_trees_count_as_applied(seeds: Seq<TreeSeed>, s: TreeSeed)
    ensures
        s.sampled matches Some(sig) ==> boot_applied(seeds.push(s)) == boot_applied(seeds).insert(
            tree_key(s.host@, s.root@),
            sig,
        ) && reload_applied(seeds.push(s)) == reload_applied(seeds).insert(
            tree_key(s.host@, s.root@),
            sig,
        ),
        s.sampled is None ==> boot_applied(seeds.push(s)) == boot_applied(seeds) && reload_applied(
            seeds.push(s),
        ) == reload_applied(seeds).insert(tree_key(s.host@, s.root@), s.fresh),
        seeds_fresh(seeds.push(s)) == seeds_fresh(seeds).insert(
            tree_key(s.host@, s.root@),
            s.fresh,
        ),
        boot_applied(seq![]) == Map::<Seq<char>, u64>::empty(),
        reload_applied(seq![]) == Map::<Seq<char>, u64>::empty(),
        seeds_fresh(seq![]) == Map::<Seq<char>, u64>::empty(),
{
    assert(seeds.push(s).drop_last() =~= seeds);
}

/// How a reload that was tried is noted. A success clears what failures left; a
/// failure is noted with the files it came from, delays the next attempt by the
/// present delay, and makes the delay after it twice as long, up to a minute.
pub proof fn law_how_attempts_are_noted(w: WatchModel, e: Seq<char>, now: u64)
    ensures
        ({
            let s = settled(w, None, now);
            &&& s.retry_at is None && s.failed_at is None && s.last_err is None
            &&& s.backoff == 2_000_000_000
        }),
        ({
            let s = settled(w, Some(e), now);
            &&& s.retry_at is Some && s.retry_at->0 == now + w.backoff
            &&& s.failed_at == Some((w.cfg_now, w.tls_now)) && s.last_err == Some(e)
            &&& w.backoff <= 30_000_000_000 ==> s.backoff == 2 * w.backoff
            &&& w.backoff > 30_000_000_000 ==> s.backoff == 60_000_000_000
        }),
{
}

/// When a tree is loaded anew: where it differs from the one applied and looked the
/// same at the tick before. One that is as applied is not, nor one that is still
/// changing, nor one that nothing is known of yet.
pub proof fn law_when_a_tree_is_loaded_anew(w: WatchModel, key: Seq<char>, sig: u64)
    ensures
        w.tree_applied.contains_key(key) && w.tree_applied[key] != sig && w.tree_last.contains_key(
            key,
        ) && w.tree_last[key] == sig ==> tree_due(w, key, sig),
        w.tree_applied.contains_key(key) && w.tree_applied[key] == sig ==> !tree_due(w, key, sig),
        w.tree_last.contains_key(key) && w.tree_last[key] != sig ==> !tree_due(w, key, sig),
        !w.tree_applied.contains_key(key) ==> !tree_due(w, key, sig),
        tree_settled(w, key, sig, true).tree_applied == w.tree_applied.insert(key, sig),
        !tree_settled(w, key, sig, true).tree_failed.contains_key(key),
        tree_settled(w, key, sig, false).tree_applied == w.tree_applied,
        tree_settled(w, key, sig, false).tree_failed == w.tree_failed.insert(key, sig),
        tree_settled(w, key, sig, true).tree_last == w.tree_last,
        tree_settled(w, key, sig, false).tree_last == w.tree_last,
{
}

/// What is done about the plain listener: one that is there and wanted is moved, one
/// that is not wanted any more is retired, one that is missing is started.
pub proof fn law_what_becomes_of_the_plain_listener()
    ensures
        plan_of(true, true) == HttpPlan::Rebind,
        plan_of(true, false) == HttpPlan::Retire,
        plan_of(false, true) == HttpPlan::Start,
        plan_of(false, false) == HttpPlan::Nothing,
{
}

/// What a site's tree may not use, when it is loaded anew, is what all the other sites
/// hold: together with its own it is what all hold.
pub proof fn law_a_reload_counts_the_other_sites(
    caches: Seq<Arc<SiteCache>>,
    site: int,
    n: int,
)
    requires
        0 <= n < caches.len(),
    ensures
        held_elsewhere(caches, site, 0) == 0,
        n != site ==> held_elsewhere(caches, site, n + 1) == held_elsewhere(caches, site, n)
            + caches[n].held(),
        n == site ==> held_elsewhere(caches, site, n + 1) == held_elsewhere(caches, site, n),
{
}

} // verus!
