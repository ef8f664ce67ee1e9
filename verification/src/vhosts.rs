//! Virtual hosts: the table from host names to sites, and how it is built.
use std::sync::Arc;

use vstd::hash_map::StringHashMap;
use vstd::prelude::*;
use vstd::string::StringExecFns;

use crate::cache::Policy;
use crate::config::{comma_joined, join_hosts, security_block, Config, SiteConfig};
use crate::redirects::Redirects;
use crate::response::{lemma_pages_size, pages_for, pages_size, ErrorPages};
use crate::text::{dec_text, push_dec, push_wide_dec, strings};

verus! {

/// One virtual host. Its content lies in a cache of its own, which is replaced
/// when the content changes.
pub struct Site {
    /// The names that lead here.
    pub hosts: Vec<String>,
    /// `None` for a host that serves no content of its own.
    pub root: Option<String>,
    /// Answer plain-HTTP traffic with a redirect to HTTPS.
    pub force_ssl: bool,
    /// Fold the `.html` spellings of a URL onto the directory form.
    pub canonical_urls: bool,
    /// Consulted before the content.
    pub redirects: Arc<Redirects>,
    pub policy: Policy,
}

/// The full host table. A name that only redirects is an ordinary site with no
/// root and a catch-all rule.
pub struct Vhosts {
    /// Lower-case host name to site.
    pub names: StringHashMap<usize>,
    pub sites: Vec<Site>,
    /// The HTTPS listener's port, for redirects.
    pub https_port: String,
    /// The plain-HTTP listener's port; empty where there is none.
    pub http_port: String,
    /// What is answered before a site is known.
    pub errors: ErrorPages,
}

impl Vhosts {
    /// Every name leads to a site, and what is derived from settings agrees with
    /// them.
    pub open spec fn wf(&self) -> bool {
        &&& forall|h: Seq<char>| #[trigger]
            self.names@.contains_key(h) ==> self.names@[h] < self.sites@.len()
        &&& forall|i: int| 0 <= i < self.sites@.len() ==> (#[trigger] self.sites@[i]).policy.wf()
        &&& exists|security: Seq<char>| #[trigger] pages_for(self.errors, security)
    }
}

/// The settings of one site with everything that is derived from them.
pub fn site_policy(cfg: &Config, s: &SiteConfig) -> (r: Policy)
    ensures
        r.wf(),
        r.t == s.tuning,
        r.security_headers@ == security_block(s.headers@),
        r.storage == cfg.storage,
        r.disk_cache@ == (match cfg.disk_cache {
            Some(d) => d@,
            None => Seq::<char>::empty(),
        }),
{
    let disk_cache = match &cfg.disk_cache {
        Some(d) => d.clone(),
        None => String::new(),
    };
    Policy::with_headers(s.tuning, &s.headers, cfg.storage, disk_cache)
}

/// The bytes that the status pages of some sites hold.
pub open spec fn site_page_bytes(sites: Seq<Site>) -> nat
    decreases sites.len(),
{
    if sites.len() == 0 {
        0
    } else {
        site_page_bytes(sites.drop_last()) + sites.last().policy.errors.size()
    }
}

/// The bytes that a host table holds outside the content caches.
pub open spec fn page_bytes(v: Vhosts) -> nat {
    v.errors.size() + site_page_bytes(v.sites@)
}

proof fn lemma_page_bytes_grow(sites: Seq<Site>, i: int)
    requires
        0 <= i <= sites.len(),
    ensures
        site_page_bytes(sites.take(i)) <= site_page_bytes(sites),
    decreases sites.len() - i,
{
    if i == sites.len() {
        assert(sites.take(i) == sites);
    } else {
        assert(sites.take(i + 1).drop_last() == sites.take(i));
        lemma_page_bytes_grow(sites, i + 1);
    }
}

/// Counts the bytes that a host table holds outside the content caches: the
/// server's status pages and one set per site, however many names it has.
pub fn error_page_bytes(vhosts: &Vhosts) -> (r: usize)
    requires
        page_bytes(*vhosts) <= usize::MAX,
    ensures
        r == page_bytes(*vhosts),
{
    let mut sum: usize = vhosts.errors.retained_bytes();
    let ghost base = vhosts.errors.size();
    let mut i: usize = 0;
    while i < vhosts.sites.len()
        invariant
            0 <= i <= vhosts.sites.len(),
            base == vhosts.errors.size(),
            page_bytes(*vhosts) <= usize::MAX,
            sum == base + site_page_bytes(vhosts.sites@.take(i as int)),
        decreases vhosts.sites.len() - i,
    {
        proof {
            assert(vhosts.sites@.take(i + 1).drop_last() == vhosts.sites@.take(i as int));
            lemma_page_bytes_grow(vhosts.sites@, i + 1);
        }
        sum = sum + vhosts.sites[i].policy.errors.retained_bytes();
        i = i + 1;
    }
    assert(vhosts.sites@.take(vhosts.sites.len() as int) == vhosts.sites@);
    sum
}

// ------------------------------------------------------------------- building

/// A host table while it is built. `total` counts every byte retained so far:
/// one budget is shared by every site.
pub struct VhostsBuilder {
    pub vhosts: Vhosts,
    pub total: u128,
}

/// What is said where the status pages of a site do not fit the budget. The
/// total also holds the server's pages and the content of the sites before, so
/// the site that is named crossed the line but need not have spent the memory.
pub open spec fn pages_over_budget(
    label: Seq<char>,
    budget: nat,
    total: nat,
    one_set: nat,
) -> Seq<char> {
    "site "@ + label + ": max_total_bytes ("@ + dec_text(budget) + ") is too small: "@ + dec_text(
        total,
    ) + " bytes are retained through this site, "@ + dec_text(one_set)
        + " of them by this site's precomputed error responses. The rest is the server error set and the content of the sites before this one"@
}

/// What is said where a root's content does not fit the budget or cannot be
/// read.
pub open spec fn content_over_budget(
    label: Seq<char>,
    root: Seq<char>,
    budget: nat,
    before: nat,
) -> Seq<char> {
    "site "@ + label + ": root "@ + root
        + " unreadable, or its content takes the cache over max_total_bytes ("@ + dec_text(budget)
        + ", of which "@ + dec_text(before) + " bytes were already retained)"@
}

/// What a document root turned out to be.
pub enum Root {
    Directory,
    Other,
    /// It cannot be reached, and why.
    Unusable(String),
}

/// What is said of a root that is no directory, if anything.
pub open spec fn root_refused(label: Seq<char>, root: Seq<char>, found: Root) -> Option<Seq<char>> {
    match found {
        Root::Directory => None,
        Root::Other => Some("site "@ + label + ": root "@ + root + " is not a directory"@),
        Root::Unusable(e) => Some("site "@ + label + ": root "@ + root + " unusable: "@ + e@),
    }
}

/// Rejects a root that is no directory.
pub fn check_root(s: &SiteConfig, root: &str, found: &Root) -> (r: Result<(), String>)
    ensures
        match r {
            Ok(()) => root_refused(comma_joined(strings(s.hosts@)), root@, *found) is None,
            Err(e) => root_refused(comma_joined(strings(s.hosts@)), root@, *found) == Some(e@),
        },
{
    if let Root::Directory = found {
        return Ok(());
    }
    let mut m = "site ".to_string();
    m.append(join_hosts(&s.hosts).as_str());
    m.append(": root ");
    m.append(root);
    match found {
        Root::Unusable(e) => {
            m.append(" unusable: ");
            m.append(e.as_str());
        },
        _ => m.append(" is not a directory"),
    }
    Err(m)
}

/// Says that a root's content does not fit the budget or cannot be read.
pub fn content_refused(s: &SiteConfig, root: &str, before: usize) -> (r: String)
    ensures
        r@ == content_over_budget(
            comma_joined(strings(s.hosts@)),
            root@,
            s.tuning.max_total_bytes as nat,
            before as nat,
        ),
{
    let mut m = "site ".to_string();
    m.append(join_hosts(&s.hosts).as_str());
    m.append(": root ");
    m.append(root);
    m.append(" unreadable, or its content takes the cache over max_total_bytes (");
    push_dec(&mut m, s.tuning.max_total_bytes as u64);
    m.append(", of which ");
    push_dec(&mut m, before as u64);
    m.append(" bytes were already retained)");
    m
}

/// The first of a list of names that is taken, either in the table or by an
/// earlier name of the list.
pub open spec fn taken_name(names: Set<Seq<char>>, hosts: Seq<Seq<char>>) -> Option<Seq<char>>
    decreases hosts.len(),
{
    if hosts.len() == 0 {
        None
    } else if names.contains(hosts[0]) {
        Some(hosts[0])
    } else {
        taken_name(names.insert(hosts[0]), hosts.skip(1))
    }
}

/// A table of names with more names for one site.
pub open spec fn names_added(
    names: Map<Seq<char>, usize>,
    hosts: Seq<Seq<char>>,
    site: usize,
) -> Map<Seq<char>, usize>
    decreases hosts.len(),
{
    if hosts.len() == 0 {
        names
    } else {
        names_added(names, hosts.drop_last(), site).insert(hosts.last(), site)
    }
}

/// A builder before a site is entered and after its status pages are charged,
/// within the budget, with the site's policy.
pub open spec fn opened(
    before: VhostsBuilder,
    after: VhostsBuilder,
    cfg: Config,
    s: SiteConfig,
    p: Policy,
) -> bool {
    &&& p.wf()
    &&& p.t == s.tuning
    &&& p.security_headers@ == security_block(s.headers@)
    &&& p.storage == cfg.storage
    &&& p.disk_cache@ == (match cfg.disk_cache {
        Some(d) => d@,
        None => Seq::<char>::empty(),
    })
    &&& after.vhosts == before.vhosts
    &&& after.total == before.total + p.errors.size()
    &&& after.total == before.total + pages_size(security_block(s.headers@))
    &&& after.total <= s.tuning.max_total_bytes
}

/// A builder with a site's status pages charged, and after the site is entered
/// under each of its names.
pub open spec fn entered(
    before: VhostsBuilder,
    after: VhostsBuilder,
    s: SiteConfig,
    root: Option<String>,
    policy: Policy,
    total: usize,
) -> bool {
    let names = before.vhosts.names@;
    let hosts = strings(s.hosts@);
    &&& taken_name(names.dom(), hosts) is None
    &&& after.vhosts.wf()
    &&& after.total == total
    &&& page_bytes(after.vhosts) <= after.total
    &&& after.vhosts.errors == before.vhosts.errors
    &&& after.vhosts.https_port == before.vhosts.https_port
    &&& after.vhosts.http_port == before.vhosts.http_port
    &&& after.vhosts.names@ == names_added(names, hosts, before.vhosts.sites@.len() as usize)
    &&& hosts.len() == 0 ==> after.vhosts.sites@ == before.vhosts.sites@
    &&& hosts.len() > 0 ==> {
        &&& after.vhosts.sites@.len() == before.vhosts.sites@.len() + 1
        &&& after.vhosts.sites@.drop_last() == before.vhosts.sites@
        &&& is_site_for(after.vhosts.sites@.last(), s@, root, policy)
    }
}

impl VhostsBuilder {
    /// Starts an empty table. The server's own status pages are retained like
    /// anything else, so they are charged first.
    pub fn new(cfg: &Config) -> (r: VhostsBuilder)
        ensures
            r.vhosts.wf(),
            pages_for(r.vhosts.errors, security_block(cfg.headers@)),
            r.vhosts.names@ == Map::<Seq<char>, usize>::empty(),
            r.vhosts.sites@ == Seq::<Site>::empty(),
            r.vhosts.https_port@ == cfg.port@,
            r.vhosts.http_port@ == cfg.http_port@,
            r.total == pages_size(security_block(cfg.headers@)),
            r.total == page_bytes(r.vhosts),
            r.total <= 12 * usize::MAX,
    {
        let errors = ErrorPages::new(cfg.headers.render().as_str());
        let total: u128 = errors.wide_size();
        proof {
            lemma_pages_size(errors, security_block(cfg.headers@));
        }
        let r = VhostsBuilder {
            vhosts: Vhosts {
                names: StringHashMap::new(),
                sites: Vec::new(),
                https_port: cfg.port.clone(),
                http_port: cfg.http_port.clone(),
                errors,
            },
            total,
        };
        assert(pages_for(r.vhosts.errors, security_block(cfg.headers@)));
        r
    }

    /// Charges a site's status pages, which are resident in every mode, and
    /// returns its policy. The budget is held here as well as while content is
    /// loaded, which disk mode and a site without a root never reach.
    pub fn open_site(&mut self, cfg: &Config, s: &SiteConfig) -> (r: Result<Policy, String>)
        requires
            old(self).total <= 12 * usize::MAX,
        ensures
            match r {
                Ok(p) => opened(*old(self), *final(self), *cfg, *s, p),
                Err(e) => {
                    let one_set = pages_size(security_block(s.headers@));
                    &&& old(self).total + one_set > s.tuning.max_total_bytes
                    &&& e@ == pages_over_budget(
                        comma_joined(strings(s.hosts@)),
                        s.tuning.max_total_bytes as nat,
                        old(self).total as nat + one_set,
                        one_set,
                    )
                    &&& *final(self) == *old(self)
                },
            },
    {
        let policy = site_policy(cfg, s);
        let one_set: u128 = policy.errors.wide_size();
        proof {
            lemma_pages_size(policy.errors, policy.security_headers@);
        }
        let total: u128 = self.total + one_set;
        let budget: usize = policy.t.max_total_bytes;
        if total > budget as u128 {
            let mut m = "site ".to_string();
            m.append(join_hosts(&s.hosts).as_str());
            m.append(": max_total_bytes (");
            push_dec(&mut m, budget as u64);
            m.append(") is too small: ");
            push_wide_dec(&mut m, total);
            m.append(" bytes are retained through this site, ");
            push_wide_dec(&mut m, one_set);
            m.append(
                " of them by this site's precomputed error responses. The rest is the server error set and the content of the sites before this one",
            );
            return Err(m);
        }
        self.total = total;
        Ok(policy)
    }

    /// Enters a site under each of its names. `total` is what is retained once
    /// its content is loaded, its status pages among it. A name that is taken
    /// fails the build.
    #[verifier::rlimit(30)]
    pub fn close_site(
        &mut self,
        s: &SiteConfig,
        root: Option<String>,
        policy: Policy,
        total: usize,
    ) -> (r: Result<(), String>)
        requires
            old(self).vhosts.wf(),
            policy.wf(),
            old(self).vhosts.sites@.len() < usize::MAX,
            page_bytes(old(self).vhosts) + policy.errors.size() <= old(self).total,
            old(self).total <= total,
        ensures
            match r {
                Ok(()) => entered(*old(self), *final(self), *s, root, policy, total),
                Err(e) => {
                    &&& match taken_name(old(self).vhosts.names@.dom(), strings(s.hosts@)) {
                        Some(h) => e@ == "duplicate host across sites: "@ + h,
                        None => false,
                    }
                    &&& final(self).total == old(self).total
                    &&& final(self).vhosts.sites == old(self).vhosts.sites
                    &&& final(self).vhosts.errors == old(self).vhosts.errors
                },
            },
    {
        let index: usize = self.vhosts.sites.len();
        let ghost names = self.vhosts.names@;
        let ghost before = self.vhosts;
        let ghost hosts = strings(s.hosts@);
        let mut owned: Vec<String> = Vec::new();
        let mut i: usize = 0;
        assert(hosts.skip(0) == hosts);
        assert(hosts.take(0) =~= seq![]);
        while i < s.hosts.len()
            invariant
                0 <= i <= s.hosts.len(),
                hosts == strings(s.hosts@),
                before == old(self).vhosts,
                self.total == old(self).total,
                index == before.sites@.len(),
                self.vhosts.sites == before.sites,
                self.vhosts.errors == before.errors,
                self.vhosts.https_port == before.https_port,
                self.vhosts.http_port == before.http_port,
                names == before.names@,
                self.vhosts.names@ == names_added(names, hosts.take(i as int), index),
                taken_name(self.vhosts.names@.dom(), hosts.skip(i as int)) == taken_name(
                    names.dom(),
                    hosts,
                ),
                strings(owned@) == hosts.take(i as int),
            decreases s.hosts.len() - i,
        {
            let ghost was = owned@;
            proof {
                assert(hosts.skip(i as int)[0] == hosts[i as int]);
                assert(hosts[i as int] == s.hosts@[i as int]@);
                assert(hosts.skip(i as int).skip(1) == hosts.skip(i + 1));
                assert(hosts.take(i + 1).drop_last() == hosts.take(i as int));
                assert(hosts.take(i + 1).last() == hosts[i as int]);
            }
            if self.vhosts.names.contains_key(s.hosts[i].as_str()) {
                let mut m = "duplicate host across sites: ".to_string();
                m.append(s.hosts[i].as_str());
                assert(self.vhosts.names@.dom().contains(hosts.skip(i as int)[0]));
                assert(taken_name(self.vhosts.names@.dom(), hosts.skip(i as int)) == Some(
                    hosts[i as int],
                ));
                return Err(m);
            }
            let ghost dom = self.vhosts.names@.dom();
            self.vhosts.names.insert(s.hosts[i].clone(), index);
            owned.push(s.hosts[i].clone());
            proof {
                assert(self.vhosts.names@.dom() =~= dom.insert(hosts[i as int]));
                assert(strings(owned@) =~= strings(was).push(hosts[i as int]));
            }
            i = i + 1;
        }
        assert(hosts.take(s.hosts.len() as int) == hosts);
        proof {
            lemma_names_are_added(names, hosts, index);
        }
        if s.hosts.len() > 0 {
            let site = Site {
                hosts: owned,
                root,
                force_ssl: s.force_ssl,
                canonical_urls: s.canonical_urls,
                redirects: s.redirects.clone(),
                policy,
            };
            let ghost pages = site.policy.errors.size();
            self.vhosts.sites.push(site);
            assert(self.vhosts.sites@.drop_last() =~= before.sites@);
            assert(page_bytes(self.vhosts) == page_bytes(before) + pages);
            assert forall|j: int| 0 <= j < self.vhosts.sites@.len() implies (
            #[trigger] self.vhosts.sites@[j]).policy.wf() by {
                if j < before.sites@.len() {
                    assert(self.vhosts.sites@[j] == before.sites@[j]);
                }
            }
        }
        self.total = total as u128;
        let ghost security = choose|security: Seq<char>| #[trigger]
            pages_for(before.errors, security);
        assert(pages_for(self.vhosts.errors, security));
        Ok(())
    }
}

/// A site is the one that a configuration describes.
pub open spec fn is_site_for(
    site: Site,
    s: crate::config::SiteModel,
    root: Option<String>,
    policy: Policy,
) -> bool {
    &&& strings(site.hosts@) == s.hosts
    &&& site.root == root
    &&& site.force_ssl == s.force_ssl
    &&& site.canonical_urls == s.canonical_urls
    &&& site.redirects@ == s.redirects
    &&& site.policy == policy
}

/// Adding names for a site adds these names and no others, and all of them lead
/// to it.
proof fn lemma_names_are_added(names: Map<Seq<char>, usize>, hosts: Seq<Seq<char>>, site: usize)
    ensures
        forall|h: Seq<char>| #[trigger]
            names_added(names, hosts, site).contains_key(h) <==> names.contains_key(h)
                || hosts.contains(h),
        forall|h: Seq<char>| #[trigger]
            names_added(names, hosts, site).contains_key(h) ==> names_added(names, hosts, site)[h]
                == (if hosts.contains(h) {
                site
            } else {
                names[h]
            }),
    decreases hosts.len(),
{
    if hosts.len() > 0 {
        let rest = hosts.drop_last();
        lemma_names_are_added(names, rest, site);
        assert forall|h: Seq<char>|
            hosts.contains(h) <==> #[trigger] rest.contains(h) || h == hosts.last() by {
            if rest.contains(h) {
                let i = choose|i: int| 0 <= i < rest.len() && #[trigger] rest[i] == h;
                assert(hosts[i] == h);
            }
            if hosts.contains(h) && h != hosts.last() {
                let i = choose|i: int| 0 <= i < hosts.len() && #[trigger] hosts[i] == h;
                assert(rest[i] == h);
            }
            if h == hosts.last() {
                assert(hosts[hosts.len() - 1] == h);
            }
        }
        let prior = names_added(names, rest, site);
        let now = names_added(names, hosts, site);
        assert forall|h: Seq<char>| #[trigger] now.contains_key(h) <==> names.contains_key(h)
            || hosts.contains(h) by {
            assert(hosts.contains(h) <==> rest.contains(h) || h == hosts.last());
            assert(prior.contains_key(h) <==> names.contains_key(h) || rest.contains(h));
        }
        assert forall|h: Seq<char>| #[trigger] now.contains_key(h) implies now[h] == (
        if hosts.contains(h) {
            site
        } else {
            names[h]
        }) by {
            assert(hosts.contains(h) <==> rest.contains(h) || h == hosts.last());
            if h != hosts.last() {
                assert(prior.contains_key(h));
            }
        }
    }
}

/// Where no name of a list is taken, none of them is in the table.
proof fn lemma_none_taken(names: Set<Seq<char>>, hosts: Seq<Seq<char>>)
    requires
        taken_name(names, hosts) is None,
    ensures
        forall|h: Seq<char>| #[trigger] hosts.contains(h) ==> !names.contains(h),
    decreases hosts.len(),
{
    if hosts.len() > 0 {
        let rest = hosts.skip(1);
        lemma_none_taken(names.insert(hosts[0]), rest);
        assert forall|h: Seq<char>| #[trigger] hosts.contains(h) implies !names.contains(h) by {
            let i = choose|i: int| 0 <= i < hosts.len() && #[trigger] hosts[i] == h;
            if i > 0 {
                assert(rest[i - 1] == h);
                assert(rest.contains(h));
            }
        }
    }
}

// ----------------------------------------------------------------------- laws

/// A whole build: each site of a configuration is opened and entered, one after
/// the other. `opens[i]` is the builder between the two.
pub open spec fn is_build(
    cfg: Config,
    builders: Seq<VhostsBuilder>,
    opens: Seq<VhostsBuilder>,
    roots: Seq<Option<String>>,
    policies: Seq<Policy>,
    totals: Seq<usize>,
) -> bool {
    &&& builders.len() == cfg.sites@.len() + 1
    &&& opens.len() == cfg.sites@.len()
    &&& roots.len() == cfg.sites@.len()
    &&& policies.len() == cfg.sites@.len()
    &&& totals.len() == cfg.sites@.len()
    &&& forall|i: int|
        0 <= i < cfg.sites@.len() ==> opened(
            builders[i],
            #[trigger] opens[i],
            cfg,
            cfg.sites@[i],
            policies[i],
        ) && entered(opens[i], builders[i + 1], cfg.sites@[i], roots[i], policies[i], totals[i])
}

/// A name belongs to a site of a configuration.
pub open spec fn is_host_of(cfg: Config, i: int, h: Seq<char>) -> bool {
    0 <= i < cfg.sites@.len() && strings(cfg.sites@[i].hosts@).contains(h)
}

/// A table of names that holds exactly the names of the first sites of a
/// configuration, each with its own site.
pub open spec fn names_first(cfg: Config, names: Map<Seq<char>, usize>, n: int) -> bool {
    &&& forall|h: Seq<char>| #[trigger]
        names.contains_key(h) ==> names[h] < n && is_host_of(cfg, names[h] as int, h)
    &&& forall|i: int, h: Seq<char>| #[trigger]
        is_host_of(cfg, i, h) ==> i < n ==> names.contains_key(h) && names[h] == i
}

/// The sites of a table are those that the first blocks of a configuration
/// describe.
pub open spec fn sites_first(
    cfg: Config,
    sites: Seq<Site>,
    roots: Seq<Option<String>>,
    policies: Seq<Policy>,
    n: int,
) -> bool {
    &&& sites.len() == n
    &&& forall|i: int|
        0 <= i < n ==> is_site_for(#[trigger] sites[i], cfg.sites@[i]@, roots[i], policies[i])
}

proof fn lemma_names_first(
    cfg: Config,
    names: Map<Seq<char>, usize>,
    hosts: Seq<Seq<char>>,
    k: usize,
)
    requires
        names_first(cfg, names, k as int),
        0 <= k < cfg.sites@.len(),
        hosts == strings(cfg.sites@[k as int].hosts@),
        taken_name(names.dom(), hosts) is None,
    ensures
        names_first(cfg, names_added(names, hosts, k), k + 1),
{
    let now = names_added(names, hosts, k);
    lemma_names_are_added(names, hosts, k);
    lemma_none_taken(names.dom(), hosts);
    assert forall|h: Seq<char>| #[trigger] now.contains_key(h) implies now[h] < k + 1 && is_host_of(
        cfg,
        now[h] as int,
        h,
    ) by {
        if !hosts.contains(h) {
            assert(names.contains_key(h));
        }
    }
    assert forall|i: int, h: Seq<char>| #[trigger] is_host_of(cfg, i, h) && i < k + 1 implies
        now.contains_key(h) && now[h] == i by {
        if i < k {
            assert(names.contains_key(h) && names[h] == i);
            assert(!hosts.contains(h));
        }
    }
}

proof fn lemma_sites_first(
    cfg: Config,
    before: Seq<Site>,
    after: Seq<Site>,
    roots: Seq<Option<String>>,
    policies: Seq<Policy>,
    k: int,
)
    requires
        sites_first(cfg, before, roots, policies, k),
        0 <= k,
        after.len() == before.len() + 1,
        after.drop_last() == before,
        is_site_for(after.last(), cfg.sites@[k]@, roots[k], policies[k]),
    ensures
        sites_first(cfg, after, roots, policies, k + 1),
        site_page_bytes(after) == site_page_bytes(before) + policies[k].errors.size(),
{
    assert forall|i: int| 0 <= i < k + 1 implies is_site_for(
        #[trigger] after[i],
        cfg.sites@[i]@,
        roots[i],
        policies[i],
    ) by {
        if i < k {
            assert(after[i] == after.drop_last()[i]);
            assert(after[i] == before[i]);
        }
    }
}

/// One site of a build.
proof fn lemma_build_step(
    cfg: Config,
    before: VhostsBuilder,
    open: VhostsBuilder,
    after: VhostsBuilder,
    roots: Seq<Option<String>>,
    policies: Seq<Policy>,
    total: usize,
    k: int,
)
    requires
        0 <= k < cfg.sites@.len(),
        cfg.sites@[k].hosts@.len() > 0,
        opened(before, open, cfg, cfg.sites@[k], policies[k]),
        entered(open, after, cfg.sites@[k], roots[k], policies[k], total),
        page_bytes(before.vhosts) <= before.total,
        names_first(cfg, before.vhosts.names@, k),
        sites_first(cfg, before.vhosts.sites@, roots, policies, k),
    ensures
        after.vhosts.wf(),
        after.vhosts.errors == before.vhosts.errors,
        after.vhosts.https_port == before.vhosts.https_port,
        after.vhosts.http_port == before.vhosts.http_port,
        page_bytes(after.vhosts) <= after.total,
        page_bytes(after.vhosts) <= cfg.sites@[k].tuning.max_total_bytes,
        names_first(cfg, after.vhosts.names@, k + 1),
        sites_first(cfg, after.vhosts.sites@, roots, policies, k + 1),
{
    let hosts = strings(cfg.sites@[k].hosts@);
    assert(cfg.sites.len() == cfg.sites@.len());
    assert(hosts.len() == cfg.sites@[k].hosts@.len());
    lemma_names_first(cfg, before.vhosts.names@, hosts, k as usize);
    lemma_sites_first(cfg, before.vhosts.sites@, after.vhosts.sites@, roots, policies, k);
}

/// A build up to some site.
proof fn lemma_build(
    cfg: Config,
    builders: Seq<VhostsBuilder>,
    opens: Seq<VhostsBuilder>,
    roots: Seq<Option<String>>,
    policies: Seq<Policy>,
    totals: Seq<usize>,
    n: int,
)
    requires
        is_build(cfg, builders, opens, roots, policies, totals),
        builders[0].vhosts.names@ == Map::<Seq<char>, usize>::empty(),
        builders[0].vhosts.sites@ == Seq::<Site>::empty(),
        page_bytes(builders[0].vhosts) <= builders[0].total,
        forall|i: int| 0 <= i < cfg.sites@.len() ==> (#[trigger] cfg.sites@[i]).hosts@.len() > 0,
        0 <= n <= cfg.sites@.len(),
    ensures
        n > 0 ==> builders[n].vhosts.wf(),
        n > 0 ==> page_bytes(builders[n].vhosts) <= cfg.sites@[n - 1].tuning.max_total_bytes,
        page_bytes(builders[n].vhosts) <= builders[n].total,
        builders[n].vhosts.errors == builders[0].vhosts.errors,
        builders[n].vhosts.https_port == builders[0].vhosts.https_port,
        builders[n].vhosts.http_port == builders[0].vhosts.http_port,
        names_first(cfg, builders[n].vhosts.names@, n),
        sites_first(cfg, builders[n].vhosts.sites@, roots, policies, n),
    decreases n,
{
    if n > 0 {
        let k = n - 1;
        lemma_build(cfg, builders, opens, roots, policies, totals, k);
        assert(cfg.sites@[k].hosts@.len() > 0);
        assert(opened(builders[k], opens[k], cfg, cfg.sites@[k], policies[k]));
        lemma_build_step(
            cfg,
            builders[k],
            opens[k],
            builders[n],
            roots,
            policies,
            totals[k],
            k,
        );
    }
}

/// A build that succeeds serves the configuration, and nothing else: there is one
/// site for each block, in the order of the blocks, with the block's own settings;
/// the names are exactly the names of the blocks, and each leads to the site of
/// its own block. What the table holds outside the content is within the budget.
pub proof fn law_a_build_serves_the_configuration(
    cfg: Config,
    builders: Seq<VhostsBuilder>,
    opens: Seq<VhostsBuilder>,
    roots: Seq<Option<String>>,
    policies: Seq<Policy>,
    totals: Seq<usize>,
)
    requires
        is_build(cfg, builders, opens, roots, policies, totals),
        builders[0].vhosts.names@ == Map::<Seq<char>, usize>::empty(),
        builders[0].vhosts.sites@ == Seq::<Site>::empty(),
        page_bytes(builders[0].vhosts) <= builders[0].total,
        cfg.sites@.len() > 0,
        forall|i: int| 0 <= i < cfg.sites@.len() ==> (#[trigger] cfg.sites@[i]).hosts@.len() > 0,
    ensures
        builders.last().vhosts.wf(),
        builders.last().vhosts.errors == builders[0].vhosts.errors,
        builders.last().vhosts.https_port == builders[0].vhosts.https_port,
        builders.last().vhosts.http_port == builders[0].vhosts.http_port,
        sites_first(
            cfg,
            builders.last().vhosts.sites@,
            roots,
            policies,
            cfg.sites@.len() as int,
        ),
        forall|i: int|
            0 <= i < cfg.sites@.len() ==> (#[trigger] policies[i]).t == cfg.sites@[i].tuning
                && policies[i].security_headers@ == security_block(cfg.sites@[i].headers@),
        forall|h: Seq<char>| #[trigger]
            builders.last().vhosts.names@.contains_key(h) <==> exists|i: int| #[trigger]
                is_host_of(cfg, i, h),
        forall|i: int, h: Seq<char>| #[trigger]
            is_host_of(cfg, i, h) ==> builders.last().vhosts.names@[h] == i,
        page_bytes(builders.last().vhosts) <= builders.last().total,
        page_bytes(builders.last().vhosts) <= cfg.sites@.last().tuning.max_total_bytes,
{
    let n = cfg.sites@.len() as int;
    lemma_build(cfg, builders, opens, roots, policies, totals, n);
    let names = builders.last().vhosts.names@;
    assert(builders.last() == builders[n]);
    assert forall|h: Seq<char>| #[trigger] names.contains_key(h) implies exists|i: int| #[trigger]
        is_host_of(cfg, i, h) by {
        assert(is_host_of(cfg, names[h] as int, h));
    }
    assert forall|i: int, h: Seq<char>| #[trigger] is_host_of(cfg, i, h) implies
        names.contains_key(h) && names[h] == i by {}
    assert forall|i: int| 0 <= i < n implies (#[trigger] policies[i]).t == cfg.sites@[i].tuning
        && policies[i].security_headers@ == security_block(cfg.sites@[i].headers@) by {
        assert(opened(builders[i], opens[i], cfg, cfg.sites@[i], policies[i]));
    }
}

/// A name belongs to one site: a list of names is free where none of them is in the
/// table and no two are the same, and otherwise the one that is named is taken, by the
/// table or by a name before it.
pub proof fn law_a_name_belongs_to_one_site(names: Set<Seq<char>>, hosts: Seq<Seq<char>>)
    ensures
        taken_name(names, hosts) is None <==> (forall|i: int|
            0 <= i < hosts.len() ==> !names.contains(#[trigger] hosts[i])) && hosts.no_duplicates(),
        taken_name(names, hosts) matches Some(h) ==> exists|i: int|
            0 <= i < hosts.len() && #[trigger] hosts[i] == h && (names.contains(h) || hosts.take(
                i,
            ).contains(h)),
    decreases hosts.len(),
{
    if hosts.len() > 0 && !names.contains(hosts[0]) {
        let rest = hosts.skip(1);
        let more = names.insert(hosts[0]);
        law_a_name_belongs_to_one_site(more, rest);
        match taken_name(more, rest) {
            None => {
                assert forall|i: int| 0 <= i < hosts.len() implies !names.contains(
                    #[trigger] hosts[i],
                ) by {
                    if i > 0 {
                        assert(rest[i - 1] == hosts[i]);
                    }
                }
                assert forall|i: int, j: int|
                    0 <= i < hosts.len() && 0 <= j < hosts.len() && i != j implies hosts[i]
                    != hosts[j] by {
                    if i > 0 {
                        assert(rest[i - 1] == hosts[i]);
                        assert(!more.contains(rest[i - 1]));
                    }
                    if j > 0 {
                        assert(rest[j - 1] == hosts[j]);
                        assert(!more.contains(rest[j - 1]));
                    }
                }
            },
            Some(h) => {
                let i = choose|i: int|
                    0 <= i < rest.len() && #[trigger] rest[i] == h && (more.contains(h)
                        || rest.take(i).contains(h));
                assert(hosts[i + 1] == h);
                if !names.contains(h) {
                    if h == hosts[0] {
                        assert(hosts.take(i + 1)[0] == h);
                    } else {
                        let k = choose|k: int| 0 <= k < i && #[trigger] rest.take(i)[k] == h;
                        assert(hosts.take(i + 1)[k + 1] == h);
                        assert(hosts[k + 1] == h);
                    }
                }
                assert(hosts.take(i + 1).contains(h) || names.contains(h));
                if !names.contains(h) {
                    let k = choose|k: int| 0 <= k < i + 1 && #[trigger] hosts.take(i + 1)[k] == h;
                    assert(hosts[k] == hosts[i + 1]);
                }
            },
        }
    } else if hosts.len() > 0 {
        assert(hosts[0] == hosts[0]);
    }
}

/// Names that are added lead to their site, and the others where they led.
pub proof fn law_added_names_lead_to_their_site(
    names: Map<Seq<char>, usize>,
    hosts: Seq<Seq<char>>,
    site: usize,
    h: Seq<char>,
)
    ensures
        hosts.contains(h) ==> names_added(names, hosts, site).contains_key(h) && names_added(
            names,
            hosts,
            site,
        )[h] == site,
        !hosts.contains(h) ==> (names_added(names, hosts, site).contains_key(h)
            <==> names.contains_key(h)),
        !hosts.contains(h) && names.contains_key(h) ==> names_added(names, hosts, site)[h]
            == names[h],
{
    lemma_names_are_added(names, hosts, site);
    let now = names_added(names, hosts, site);
    assert(now.contains_key(h) <==> names.contains_key(h) || hosts.contains(h));
}

/// A root has to be a directory: anything else, and what cannot be reached, is refused,
/// with the names of the site and the root, and why.
pub proof fn law_roots_are_directories(label: Seq<char>, root: Seq<char>, e: String)
    ensures
        root_refused(label, root, Root::Directory) is None,
        root_refused(label, root, Root::Other) is Some,
        root_refused(label, root, Root::Unusable(e)) is Some,
        ("site "@ + label + ": root "@ + root).is_prefix_of(root_refused(label, root, Root::Other)->0),
        ("site "@ + label + ": root "@ + root).is_prefix_of(
            root_refused(label, root, Root::Unusable(e))->0,
        ),
        " is not a directory"@.is_suffix_of(root_refused(label, root, Root::Other)->0),
        (" unusable: "@ + e@).is_suffix_of(root_refused(label, root, Root::Unusable(e))->0),
{
    let first = "site "@ + label + ": root "@ + root;
    let other = root_refused(label, root, Root::Other)->0;
    let barred = root_refused(label, root, Root::Unusable(e))->0;
    let why = " unusable: "@ + e@;
    assert(first =~= other.subrange(0, first.len() as int));
    assert(first =~= barred.subrange(0, first.len() as int));
    assert(" is not a directory"@ =~= other.subrange(first.len() as int, other.len() as int));
    assert(why =~= barred.subrange(barred.len() - why.len(), barred.len() as int));
}

/// What a table holds outside the content is its own pages and those of every site.
pub proof fn law_every_page_counts(v: Vhosts, sites: Seq<Site>, s: Site)
    ensures
        page_bytes(v) == v.errors.size() + site_page_bytes(v.sites@),
        site_page_bytes(sites.push(s)) == site_page_bytes(sites) + s.policy.errors.size(),
        site_page_bytes(seq![]) == 0,
{
    assert(sites.push(s).drop_last() =~= sites);
}

/// What is said of a budget that is too small names the site, the budget, and what is
/// held.
pub proof fn law_a_small_budget_is_explained(
    label: Seq<char>,
    root: Seq<char>,
    budget: nat,
    held: nat,
    own: nat,
)
    ensures
        ("site "@ + label + ": max_total_bytes ("@ + dec_text(budget) + ") is too small: "@ + dec_text(
            held,
        ) + " bytes"@).is_prefix_of(pages_over_budget(label, budget, held, own)),
        ("site "@ + label + ": root "@ + root).is_prefix_of(
            content_over_budget(label, root, budget, held),
        ),
        ("("@ + dec_text(budget) + ", of which "@ + dec_text(held)
            + " bytes were already retained)"@).is_suffix_of(
            content_over_budget(label, root, budget, held),
        ),
{
    reveal_strlit(" bytes are retained through this site, ");
    reveal_strlit(" bytes");
    let a = "site "@ + label + ": max_total_bytes ("@ + dec_text(budget) + ") is too small: "@
        + dec_text(held) + " bytes"@;
    let pages = pages_over_budget(label, budget, held, own);
    assert(a =~= pages.subrange(0, a.len() as int));
    let content = content_over_budget(label, root, budget, held);
    let b = "site "@ + label + ": root "@ + root;
    assert(b =~= content.subrange(0, b.len() as int));
    reveal_strlit("(");
    reveal_strlit(" unreadable, or its content takes the cache over max_total_bytes (");
    let c = "("@ + dec_text(budget) + ", of which "@ + dec_text(held)
        + " bytes were already retained)"@;
    assert(c =~= content.subrange(content.len() - c.len(), content.len() as int));
}

/// A site is all that its block says: its names, its root, its two switches, its rules,
/// its tuning and its headers, kept where the configuration says.
pub proof fn law_a_site_is_what_its_block_says(
    before: VhostsBuilder,
    open: VhostsBuilder,
    after: VhostsBuilder,
    cfg: Config,
    s: SiteConfig,
    root: Option<String>,
    p: Policy,
    total: usize,
)
    requires
        opened(before, open, cfg, s, p),
        entered(open, after, s, root, p, total),
        s@.hosts.len() > 0,
    ensures
        ({
            let site = after.vhosts.sites@.last();
            &&& after.vhosts.sites@.len() == before.vhosts.sites@.len() + 1
            &&& strings(site.hosts@) == s@.hosts
            &&& site.root == root
            &&& site.force_ssl == s@.force_ssl
            &&& site.canonical_urls == s@.canonical_urls
            &&& site.redirects@ == s@.redirects
            &&& site.policy.t == s.tuning
            &&& site.policy.security_headers@ == security_block(s.headers@)
            &&& site.policy.storage == cfg.storage
            &&& cfg.disk_cache matches Some(d) ==> site.policy.disk_cache@ == d@
            &&& forall|i: int|
                0 <= i < before.vhosts.sites@.len() ==> #[trigger] after.vhosts.sites@[i]
                    == before.vhosts.sites@[i]
            &&& forall|h: Seq<char>|
                s@.hosts.contains(h) ==> #[trigger] after.vhosts.names@.contains_key(h)
                    && after.vhosts.names@[h] == before.vhosts.sites@.len() as usize
            &&& open.total <= s.tuning.max_total_bytes
            &&& after.total == total
        }),
{
    let sites = after.vhosts.sites@;
    assert forall|i: int| 0 <= i < before.vhosts.sites@.len() implies #[trigger] sites[i]
        == before.vhosts.sites@[i] by {
        assert(sites.drop_last()[i] == sites[i]);
    }
    let names = open.vhosts.names@;
    let site = open.vhosts.sites@.len() as usize;
    assert forall|h: Seq<char>|
        s@.hosts.contains(h) implies #[trigger] after.vhosts.names@.contains_key(h)
            && after.vhosts.names@[h] == site by {
        law_added_names_lead_to_their_site(names, s@.hosts, site, h);
    }
}

} // verus!
