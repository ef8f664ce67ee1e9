//! Change detection: signatures of files and trees, made of names, sizes and
//! modification times, never of contents.
use vstd::prelude::*;
use vstd::utf8::encode_utf8;

use crate::cache::{hidden, is_hidden};
use crate::config::{config_of, parse_config, Config, SiteModel};
use crate::response::{
    law_a_run_keeps_hashes_apart, law_mixing_is_injective, mix, mix_bytes, mixed, mixed_bytes,
    FNV_OFFSET,
};
use crate::text::strings;

verus! {

// ---------------------------------------------------------------------- files

/// The size and the modification time of a file, where they can be read.
pub struct Stamp {
    pub len: u64,
    /// Nanoseconds since the epoch; 0 where that is not known.
    pub mtime: u64,
}

/// A hash with a stamp mixed in.
pub open spec fn stamped(hash: u64, s: Stamp) -> u64 {
    mixed(mixed(hash, s.len), s.mtime)
}

/// The signature of one file.
pub open spec fn file_sig(s: Option<Stamp>) -> u64 {
    match s {
        Some(s) => stamped(FNV_OFFSET, s),
        None => FNV_OFFSET,
    }
}

/// Makes the signature of one file.
pub fn file_signature(s: &Option<Stamp>) -> (r: u64)
    ensures
        r == file_sig(*s),
{
    match s {
        Some(s) => mix(mix(FNV_OFFSET, s.len), s.mtime),
        None => FNV_OFFSET,
    }
}

/// The combined signature of some files. They are folded in order, so that two
/// sites that share one certificate do not cancel each other out.
pub open spec fn files_sig(files: Seq<Option<Stamp>>) -> u64
    decreases files.len(),
{
    if files.len() == 0 {
        FNV_OFFSET
    } else {
        mixed(files_sig(files.drop_last()), file_sig(files.last()))
    }
}

/// Makes the combined signature of the TLS material.
pub fn tls_signature(files: &Vec<Option<Stamp>>) -> (r: u64)
    ensures
        r == files_sig(files@),
{
    let mut h: u64 = FNV_OFFSET;
    let mut i: usize = 0;
    assert(files@.take(0) =~= seq![]);
    while i < files.len()
        invariant
            0 <= i <= files.len(),
            h == files_sig(files@.take(i as int)),
        decreases files.len() - i,
    {
        assert(files@.take(i + 1).drop_last() == files@.take(i as int));
        h = mix(h, file_signature(&files[i]));
        i = i + 1;
    }
    assert(files@.take(files.len() as int) == files@);
    h
}

// ---------------------------------------------------------------------- trees

/// What a directory entry is to a signature.
pub enum Entry {
    Dir(Vec<Node>),
    File(Stamp),
    /// A device, a socket or the like: only its name counts.
    Other,
    /// A symbolic link, or an entry whose metadata could not be read: it does
    /// not count at all.
    Ignored,
}

/// A directory entry. `raw` is its name as the system has it, by which entries
/// are ordered; `name` is the name as text.
pub struct Node {
    pub raw: Vec<u8>,
    pub name: String,
    pub entry: Entry,
}

/// A hash with the entries of a directory mixed in, one after the other. Hidden
/// ones and links are passed over, as they are when content is loaded.
pub open spec fn mixed_list(hash: u64, nodes: Seq<Node>) -> u64
    decreases nodes,
{
    if nodes.len() == 0 {
        hash
    } else {
        mixed_node(mixed_list(hash, nodes.drop_last()), nodes.last())
    }
}

/// A hash with one entry mixed in: its name, then its stamp or its own entries.
pub open spec fn mixed_node(hash: u64, node: Node) -> u64
    decreases node,
{
    if hidden(node.name@) {
        hash
    } else {
        let h = mixed_bytes(hash, encode_utf8(node.name@));
        match node.entry {
            Entry::Ignored => hash,
            Entry::Other => h,
            Entry::File(s) => stamped(h, s),
            Entry::Dir(children) => mixed_list(h, children@),
        }
    }
}

/// Mixes the entries of a directory, in the order in which they stand, into a
/// hash.
pub fn dir_signature(nodes: &Vec<Node>, hash: u64) -> (r: u64)
    ensures
        r == mixed_list(hash, nodes@),
    decreases nodes,
{
    let mut h: u64 = hash;
    let mut i: usize = 0;
    assert(nodes@.take(0) =~= seq![]);
    while i < nodes.len()
        invariant
            0 <= i <= nodes.len(),
            h == mixed_list(hash, nodes@.take(i as int)),
        decreases nodes.len() - i,
    {
        assert(nodes@.take(i + 1).drop_last() == nodes@.take(i as int));
        assert(nodes@.take(i + 1).last() == nodes@[i as int]);
        h = node_signature(&nodes[i], h);
        i = i + 1;
    }
    assert(nodes@.take(nodes.len() as int) == nodes@);
    h
}

fn node_signature(node: &Node, hash: u64) -> (r: u64)
    ensures
        r == mixed_node(hash, *node),
    decreases node,
{
    if is_hidden(node.name.as_str()) {
        return hash;
    }
    let h: u64 = mix_bytes(hash, node.name.as_str().as_bytes());
    match &node.entry {
        Entry::Ignored => hash,
        Entry::Other => h,
        Entry::File(s) => mix(mix(h, s.len), s.mtime),
        Entry::Dir(children) => dir_signature(children, h),
    }
}

/// Makes the signature of a tree whose directories are in order.
pub fn tree_signature(nodes: &Vec<Node>) -> (r: u64)
    ensures
        r == mixed_list(FNV_OFFSET, nodes@),
{
    dir_signature(nodes, FNV_OFFSET)
}

// ---------------------------------------------------------------------- order

/// One run of bytes comes before another in the order of dictionaries.
pub open spec fn comes_before(a: Seq<u8>, b: Seq<u8>) -> bool
    decreases b.len(),
{
    if b.len() == 0 {
        false
    } else if a.len() == 0 || a[0] < b[0] {
        true
    } else {
        a[0] == b[0] && comes_before(a.skip(1), b.skip(1))
    }
}

pub proof fn lemma_before_irreflexive(a: Seq<u8>)
    ensures
        !comes_before(a, a),
    decreases a.len(),
{
    if a.len() > 0 {
        lemma_before_irreflexive(a.skip(1));
    }
}

pub proof fn lemma_before_transitive(a: Seq<u8>, b: Seq<u8>, c: Seq<u8>)
    requires
        comes_before(a, b),
        comes_before(b, c),
    ensures
        comes_before(a, c),
    decreases c.len(),
{
    if a.len() > 0 && b.len() > 0 && c.len() > 0 && a[0] == b[0] && b[0] == c[0] {
        lemma_before_transitive(a.skip(1), b.skip(1), c.skip(1));
    }
}

#[verifier::spinoff_prover]
#[verifier::rlimit(30)]
pub proof fn lemma_before_total(a: Seq<u8>, b: Seq<u8>)
    ensures
        comes_before(a, b) || comes_before(b, a) || a == b,
    decreases a.len(),
{
    if a.len() > 0 && b.len() > 0 && a[0] == b[0] {
        lemma_before_total(a.skip(1), b.skip(1));
        if a.skip(1) == b.skip(1) {
            assert forall|i: int| 1 <= i < a.len() implies a[i] == b[i] by {
                assert(a[i] == a.skip(1)[i - 1]);
                assert(b[i] == b.skip(1)[i - 1]);
            }
            assert(a =~= b);
        }
    } else if a.len() == 0 && b.len() == 0 {
        assert(a =~= b);
    }
}

/// Decides [`comes_before`].
pub fn is_before(a: &[u8], b: &[u8]) -> (r: bool)
    ensures
        r == comes_before(a@, b@),
{
    let mut i: usize = 0;
    assert(a@.skip(0) == a@);
    assert(b@.skip(0) == b@);
    while i < a.len() && i < b.len() && a[i] == b[i]
        invariant
            0 <= i <= a.len(),
            i <= b.len(),
            comes_before(a@.skip(i as int), b@.skip(i as int)) == comes_before(a@, b@),
        decreases a.len() - i,
    {
        assert(a@.skip(i as int).skip(1) == a@.skip(i + 1));
        assert(b@.skip(i as int).skip(1) == b@.skip(i + 1));
        i = i + 1;
    }
    if i == b.len() {
        false
    } else if i == a.len() {
        true
    } else {
        a[i] < b[i]
    }
}

/// A list of entries with one more, placed behind every entry that does not come
/// after it.
pub open spec fn filed(nodes: Seq<Node>, node: Node) -> Seq<Node>
    decreases nodes.len(),
{
    if nodes.len() == 0 || !comes_before(node.raw@, nodes.last().raw@) {
        nodes.push(node)
    } else {
        filed(nodes.drop_last(), node).push(nodes.last())
    }
}

/// The entries of a directory in the order of their names; entries of one name
/// keep their order.
pub open spec fn in_order(nodes: Seq<Node>) -> Seq<Node>
    decreases nodes.len(),
{
    if nodes.len() == 0 {
        seq![]
    } else {
        filed(in_order(nodes.drop_last()), nodes.last())
    }
}

/// No entry stands behind one that comes after it.
pub open spec fn is_in_order(nodes: Seq<Node>) -> bool {
    forall|i: int, j: int|
        0 <= i < j < nodes.len() ==> !comes_before(
            (#[trigger] nodes[j]).raw@,
            (#[trigger] nodes[i]).raw@,
        )
}

/// A new entry goes to where the entries that come after it begin.
proof fn lemma_filed_at(nodes: Seq<Node>, node: Node, p: int)
    requires
        0 <= p <= nodes.len(),
        forall|i: int| 0 <= i < p ==> !comes_before(node.raw@, (#[trigger] nodes[i]).raw@),
        forall|i: int| p <= i < nodes.len() ==> comes_before(node.raw@, (#[trigger] nodes[i]).raw@),
    ensures
        filed(nodes, node) == nodes.take(p).push(node) + nodes.skip(p),
    decreases nodes.len(),
{
    if nodes.len() == p {
        assert(nodes.take(p) =~= nodes);
        assert(nodes.skip(p) =~= seq![]);
        assert(nodes.push(node) + seq![] =~= nodes.push(node));
        if p > 0 {
            assert(nodes[p - 1] == nodes.last());
        }
    } else {
        let front = nodes.drop_last();
        assert(nodes[nodes.len() - 1] == nodes.last());
        assert forall|i: int| 0 <= i < p implies !comes_before(
            node.raw@,
            (#[trigger] front[i]).raw@,
        ) by {
            assert(front[i] == nodes[i]);
        }
        assert forall|i: int| p <= i < front.len() implies comes_before(
            node.raw@,
            (#[trigger] front[i]).raw@,
        ) by {
            assert(front[i] == nodes[i]);
        }
        lemma_filed_at(front, node, p);
        assert(front.take(p) =~= nodes.take(p));
        assert((nodes.take(p).push(node) + front.skip(p)).push(nodes.last()) =~= nodes.take(p).push(
            node,
        ) + nodes.skip(p));
    }
}

/// Placing an entry keeps the order.
proof fn lemma_filed_in_order(nodes: Seq<Node>, node: Node, p: int)
    requires
        is_in_order(nodes),
        0 <= p <= nodes.len(),
        forall|i: int| 0 <= i < p ==> !comes_before(node.raw@, (#[trigger] nodes[i]).raw@),
        forall|i: int| p <= i < nodes.len() ==> comes_before(node.raw@, (#[trigger] nodes[i]).raw@),
    ensures
        is_in_order(nodes.take(p).push(node) + nodes.skip(p)),
{
    let now = nodes.take(p).push(node) + nodes.skip(p);
    assert forall|i: int, j: int| 0 <= i < j < now.len() implies !comes_before(
        (#[trigger] now[j]).raw@,
        (#[trigger] now[i]).raw@,
    ) by {
        let a = if i < p {
            nodes[i]
        } else if i == p {
            node
        } else {
            nodes[i - 1]
        };
        let b = if j < p {
            nodes[j]
        } else if j == p {
            node
        } else {
            nodes[j - 1]
        };
        assert(now[i] == a && now[j] == b);
        if i == p {
            if comes_before(b.raw@, node.raw@) {
                lemma_before_transitive(b.raw@, node.raw@, b.raw@);
                lemma_before_irreflexive(b.raw@);
            }
        }
    }
}

/// Where the entries that come after `node` begin, in a list that is in order.
fn position(nodes: &Vec<Node>, node: &Node) -> (r: usize)
    requires
        is_in_order(nodes@),
    ensures
        0 <= r <= nodes@.len(),
        forall|i: int| 0 <= i < r ==> !comes_before(node.raw@, (#[trigger] nodes@[i]).raw@),
        forall|i: int|
            r <= i < nodes@.len() ==> comes_before(node.raw@, (#[trigger] nodes@[i]).raw@),
{
    let mut lo: usize = 0;
    let mut hi: usize = nodes.len();
    while lo < hi
        invariant
            0 <= lo <= hi <= nodes@.len(),
            is_in_order(nodes@),
            forall|i: int| 0 <= i < lo ==> !comes_before(node.raw@, (#[trigger] nodes@[i]).raw@),
            forall|i: int|
                hi <= i < nodes@.len() ==> comes_before(node.raw@, (#[trigger] nodes@[i]).raw@),
        decreases hi - lo,
    {
        let mid: usize = lo + (hi - lo) / 2;
        let ghost m = nodes@[mid as int].raw@;
        if is_before(node.raw.as_slice(), nodes[mid].raw.as_slice()) {
            assert forall|i: int| mid <= i < nodes@.len() implies comes_before(
                node.raw@,
                (#[trigger] nodes@[i]).raw@,
            ) by {
                if i > mid {
                    lemma_before_total(m, nodes@[i].raw@);
                    if comes_before(m, nodes@[i].raw@) {
                        lemma_before_transitive(node.raw@, m, nodes@[i].raw@);
                    }
                }
            }
            hi = mid;
        } else {
            assert forall|i: int| 0 <= i < mid + 1 implies !comes_before(
                node.raw@,
                (#[trigger] nodes@[i]).raw@,
            ) by {
                if i < mid && comes_before(node.raw@, nodes@[i].raw@) {
                    lemma_before_total(nodes@[i].raw@, m);
                    if comes_before(nodes@[i].raw@, m) {
                        lemma_before_transitive(node.raw@, nodes@[i].raw@, m);
                    }
                }
            }
            lo = mid + 1;
        }
    }
    lo
}

/// Puts the entries of a directory in order, so that a tree has one signature
/// whatever order the system lists it in.
pub fn order_nodes(nodes: Vec<Node>) -> (r: Vec<Node>)
    ensures
        r@ == in_order(nodes@),
        is_in_order(r@),
{
    let mut out: Vec<Node> = Vec::new();
    let ghost all = nodes@;
    assert(all.take(0) =~= seq![]);
    assert(out@ =~= seq![]);
    for node in it: nodes
        invariant
            it.seq() == all,
            out@ == in_order(all.take(it.index() as int)),
            is_in_order(out@),
    {
        let ghost k = it.index();
        let ghost before = out@;
        proof {
            assert(all.take(k + 1).drop_last() == all.take(k));
            assert(all.take(k + 1).last() == node);
        }
        let p: usize = position(&out, &node);
        proof {
            lemma_filed_at(before, node, p as int);
            lemma_filed_in_order(before, node, p as int);
        }
        out.insert(p, node);
        assert(out@ =~= before.take(p as int).push(node) + before.skip(p as int));
    }
    assert(all.take(all.len() as int) == all);
    out
}

// ---------------------------------------------------------------- watched files

/// The certificate and key files of some sites, in order.
pub open spec fn pem_paths(sites: Seq<SiteModel>) -> Seq<Seq<char>>
    decreases sites.len(),
{
    if sites.len() == 0 {
        seq![]
    } else {
        pem_paths(sites.drop_last()).push(sites.last().cert).push(sites.last().key)
    }
}

/// Lists every certificate and key file that a configuration names. Every site
/// terminates TLS, the ones that only redirect among them.
pub fn tls_paths(cfg: &Config) -> (r: Vec<String>)
    ensures
        strings(r@) == pem_paths(cfg@.sites),
{
    let mut v: Vec<String> = Vec::new();
    let mut i: usize = 0;
    let ghost sites = cfg@.sites;
    assert(sites.take(0) =~= seq![]);
    assert(strings(v@) =~= seq![]);
    while i < cfg.sites.len()
        invariant
            0 <= i <= cfg.sites.len(),
            sites == cfg@.sites,
            strings(v@) == pem_paths(sites.take(i as int)),
        decreases cfg.sites.len() - i,
    {
        let ghost before = v@;
        proof {
            assert(sites.take(i + 1).drop_last() == sites.take(i as int));
            assert(sites.take(i + 1).last() == cfg.sites@[i as int]@);
        }
        v.push(cfg.sites[i].cert.clone());
        v.push(cfg.sites[i].key.clone());
        assert(strings(v@) =~= strings(before).push(cfg.sites@[i as int].cert@).push(
            cfg.sites@[i as int].key@,
        ));
        i = i + 1;
    }
    assert(sites.take(cfg.sites.len() as int) == sites);
    v
}

/// The document roots of some sites, as they are written; a site that only
/// redirects has none.
pub open spec fn roots_of(sites: Seq<SiteModel>) -> Seq<Seq<char>>
    decreases sites.len(),
{
    if sites.len() == 0 {
        seq![]
    } else {
        match sites.last().root {
            Some(root) => roots_of(sites.drop_last()).push(root),
            None => roots_of(sites.drop_last()),
        }
    }
}

/// Lists the document roots of a configuration as they are written. Where each
/// leads may change without the file changing, so that is watched too.
pub fn root_links(cfg: &Config) -> (r: Vec<String>)
    ensures
        strings(r@) == roots_of(cfg@.sites),
{
    let mut v: Vec<String> = Vec::new();
    let mut i: usize = 0;
    let ghost sites = cfg@.sites;
    assert(sites.take(0) =~= seq![]);
    assert(strings(v@) =~= seq![]);
    while i < cfg.sites.len()
        invariant
            0 <= i <= cfg.sites.len(),
            sites == cfg@.sites,
            strings(v@) == roots_of(sites.take(i as int)),
        decreases cfg.sites.len() - i,
    {
        let ghost before = v@;
        proof {
            assert(sites.take(i + 1).drop_last() == sites.take(i as int));
            assert(sites.take(i + 1).last() == cfg.sites@[i as int]@);
        }
        if let Some(root) = &cfg.sites[i].root {
            v.push(root.clone());
            assert(strings(v@) =~= strings(before).push(root@));
        }
        i = i + 1;
    }
    assert(sites.take(cfg.sites.len() as int) == sites);
    v
}

/// Lists the document roots of a configuration text. `None` where it does not
/// parse: a file that is half written is no evidence that a root moved.
pub fn root_links_of(text: &str) -> (r: Option<Vec<String>>)
    ensures
        match r {
            Some(v) => config_of(text@) matches Ok(c) && strings(v@) == roots_of(c.sites),
            None => config_of(text@) is Err,
        },
{
    match parse_config(text) {
        Ok(c) => Some(root_links(&c)),
        Err(_) => None,
    }
}

// ----------------------------------------------------------------------- laws

/// Where a new entry goes in a list that is in order.
proof fn lemma_position(nodes: Seq<Node>, node: Node) -> (p: int)
    requires
        is_in_order(nodes),
    ensures
        0 <= p <= nodes.len(),
        forall|i: int| 0 <= i < p ==> !comes_before(node.raw@, (#[trigger] nodes[i]).raw@),
        forall|i: int| p <= i < nodes.len() ==> comes_before(node.raw@, (#[trigger] nodes[i]).raw@),
    decreases nodes.len(),
{
    if nodes.len() == 0 {
        0
    } else {
        let front = nodes.drop_last();
        let last = nodes.last();
        assert(nodes[nodes.len() - 1] == last);
        if comes_before(node.raw@, last.raw@) {
            let p = lemma_position(front, node);
            assert forall|i: int| 0 <= i < p implies !comes_before(
                node.raw@,
                (#[trigger] nodes[i]).raw@,
            ) by {
                assert(front[i] == nodes[i]);
            }
            assert forall|i: int| p <= i < nodes.len() implies comes_before(
                node.raw@,
                (#[trigger] nodes[i]).raw@,
            ) by {
                if i < front.len() {
                    assert(front[i] == nodes[i]);
                }
            }
            p
        } else {
            assert forall|i: int| 0 <= i < nodes.len() implies !comes_before(
                node.raw@,
                (#[trigger] nodes[i]).raw@,
            ) by {
                if comes_before(node.raw@, nodes[i].raw@) && i < nodes.len() - 1 {
                    lemma_before_total(nodes[i].raw@, last.raw@);
                    if comes_before(nodes[i].raw@, last.raw@) {
                        lemma_before_transitive(node.raw@, nodes[i].raw@, last.raw@);
                    }
                }
            }
            nodes.len() as int
        }
    }
}

/// Putting entries in order neither adds nor drops any.
proof fn lemma_in_order(nodes: Seq<Node>)
    ensures
        is_in_order(in_order(nodes)),
        in_order(nodes).to_multiset() == nodes.to_multiset(),
        in_order(nodes).len() == nodes.len(),
    decreases nodes.len(),
{
    broadcast use vstd::seq_lib::group_to_multiset_ensures;

    if nodes.len() > 0 {
        let front = nodes.drop_last();
        lemma_in_order(front);
        let sorted = in_order(front);
        let p = lemma_position(sorted, nodes.last());
        lemma_filed_at(sorted, nodes.last(), p);
        lemma_filed_in_order(sorted, nodes.last(), p);
        assert(sorted.take(p).push(nodes.last()) + sorted.skip(p) =~= sorted.insert(
            p,
            nodes.last(),
        ));
        assert(nodes =~= front.push(nodes.last()));
    } else {
        assert(nodes =~= seq![]);
    }
}

/// No two entries have the same name.
pub open spec fn distinct_names(nodes: Seq<Node>) -> bool {
    forall|i: int, j: int|
        0 <= i < nodes.len() && 0 <= j < nodes.len() && (#[trigger] nodes[i]).raw@ == (
        #[trigger] nodes[j]).raw@ ==> nodes[i] == nodes[j]
}

/// Two lists in order with the same entries are the same list.
proof fn lemma_order_is_unique(a: Seq<Node>, b: Seq<Node>)
    requires
        is_in_order(a),
        is_in_order(b),
        a.to_multiset() == b.to_multiset(),
        distinct_names(a),
    ensures
        a == b,
    decreases a.len(),
{
    broadcast use vstd::seq_lib::group_to_multiset_ensures;

    assert(a.len() == a.to_multiset().len());
    assert(b.len() == b.to_multiset().len());
    if a.len() == 0 {
        assert(a =~= b);
    } else {
        let x = a.last();
        let y = b.last();
        assert(a[a.len() - 1] == x && b[b.len() - 1] == y);
        assert(a.contains(x) && b.contains(y));
        assert(b.to_multiset().count(x) > 0);
        assert(b.contains(x));
        assert(a.to_multiset().count(y) > 0);
        assert(a.contains(y));
        let i = choose|i: int| 0 <= i < b.len() && b[i] == x;
        let j = choose|j: int| 0 <= j < a.len() && a[j] == y;
        lemma_before_irreflexive(x.raw@);
        assert(!comes_before(y.raw@, x.raw@));
        assert(!comes_before(x.raw@, y.raw@));
        lemma_before_total(x.raw@, y.raw@);
        assert(a[j] == a[a.len() - 1]);
        assert(x == y);
        let fa = a.drop_last();
        let fb = b.drop_last();
        assert(a =~= fa.push(x));
        assert(b =~= fb.push(x));
        assert(a.to_multiset() == fa.to_multiset().insert(x));
        assert(b.to_multiset() == fb.to_multiset().insert(x));
        assert(fa.to_multiset() =~= a.to_multiset().remove(x));
        assert(fb.to_multiset() =~= b.to_multiset().remove(x));
        assert forall|m: int, n: int|
            0 <= m < fa.len() && 0 <= n < fa.len() && (#[trigger] fa[m]).raw@ == (
            #[trigger] fa[n]).raw@ implies fa[m] == fa[n] by {
            assert(fa[m] == a[m] && fa[n] == a[n]);
        }
        lemma_order_is_unique(fa, fb);
    }
}

/// The order in which a directory is listed does not show in its signature: two
/// listings of the same entries, with no name twice, are one listing once they
/// are in order.
pub proof fn law_listing_order_does_not_show(a: Seq<Node>, b: Seq<Node>, hash: u64)
    requires
        a.to_multiset() == b.to_multiset(),
        distinct_names(a),
    ensures
        in_order(a) == in_order(b),
        mixed_list(hash, in_order(a)) == mixed_list(hash, in_order(b)),
{
    broadcast use vstd::seq_lib::group_to_multiset_ensures;

    lemma_in_order(a);
    lemma_in_order(b);
    let s = in_order(a);
    assert forall|i: int, j: int|
        0 <= i < s.len() && 0 <= j < s.len() && (#[trigger] s[i]).raw@ == (
        #[trigger] s[j]).raw@ implies s[i] == s[j] by {
        assert(s.contains(s[i]) && s.contains(s[j]));
        assert(a.to_multiset().count(s[i]) > 0);
        assert(a.to_multiset().count(s[j]) > 0);
        assert(a.contains(s[i]) && a.contains(s[j]));
    }
    lemma_order_is_unique(in_order(a), in_order(b));
}

/// A file that is edited is noticed: of one hash, two stamps of one size with two
/// times give two hashes, and so do two stamps of one time with two sizes. Where the
/// stamp stays, two hashes stay apart.
pub proof fn law_an_edited_file_is_noticed(hash: u64, other: u64, a: Stamp, b: Stamp)
    ensures
        a.len == b.len && a.mtime != b.mtime ==> stamped(hash, a) != stamped(hash, b)
            && file_sig(Some(a)) != file_sig(Some(b)),
        a.len != b.len && a.mtime == b.mtime ==> stamped(hash, a) != stamped(hash, b)
            && file_sig(Some(a)) != file_sig(Some(b)),
        stamped(hash, a) == stamped(other, a) ==> hash == other,
{
    lemma_stamped_apart(hash, other, a, b);
    lemma_stamped_apart(FNV_OFFSET, FNV_OFFSET, a, b);
}

proof fn lemma_stamped_apart(hash: u64, other: u64, a: Stamp, b: Stamp)
    ensures
        a.len == b.len && a.mtime != b.mtime ==> stamped(hash, a) != stamped(hash, b),
        a.len != b.len && a.mtime == b.mtime ==> stamped(hash, a) != stamped(hash, b),
        stamped(hash, a) == stamped(other, a) ==> hash == other,
{
    law_mixing_is_injective(mixed(hash, a.len), mixed(hash, b.len), a.mtime, b.mtime);
    law_mixing_is_injective(mixed(hash, a.len), mixed(other, a.len), a.mtime, a.mtime);
    law_mixing_is_injective(hash, hash, a.len, b.len);
    law_mixing_is_injective(hash, other, a.len, a.len);
}

/// A certificate that is renewed is noticed: where the signature of exactly one of
/// some files changes, so does their combined one, whatever stands around it.
pub proof fn law_one_renewed_file_is_noticed(
    before: Seq<Option<Stamp>>,
    a: Option<Stamp>,
    b: Option<Stamp>,
    behind: Seq<Option<Stamp>>,
)
    requires
        file_sig(a) != file_sig(b),
    ensures
        files_sig(before + seq![a] + behind) != files_sig(before + seq![b] + behind),
    decreases behind.len(),
{
    let x = before + seq![a] + behind;
    let y = before + seq![b] + behind;
    if behind.len() == 0 {
        assert(x.drop_last() =~= before);
        assert(y.drop_last() =~= before);
        assert(x.last() == a && y.last() == b);
        law_mixing_is_injective(
            files_sig(before),
            files_sig(before),
            file_sig(a),
            file_sig(b),
        );
    } else {
        law_one_renewed_file_is_noticed(before, a, b, behind.drop_last());
        assert(x.drop_last() =~= before + seq![a] + behind.drop_last());
        assert(y.drop_last() =~= before + seq![b] + behind.drop_last());
        assert(x.last() == behind.last() && y.last() == behind.last());
        law_mixing_is_injective(
            files_sig(x.drop_last()),
            files_sig(y.drop_last()),
            file_sig(behind.last()),
            file_sig(behind.last()),
        );
    }
}

/// The order of the files counts: a file is mixed into what the files before it
/// gave, and no file leaves the hash as it is where its signature does not.
pub proof fn law_files_are_folded_in_order(files: Seq<Option<Stamp>>, last: Option<Stamp>)
    ensures
        files_sig(seq![]) == FNV_OFFSET,
        files_sig(files.push(last)) == (files_sig(files) ^ file_sig(last)).wrapping_mul(
            0x100000001b3,
        ),
{
    assert(files.push(last).drop_last() =~= files);
}

/// Entries behind entries are mixed into what the first ones gave.
pub proof fn law_listings_are_mixed_in_row(hash: u64, a: Seq<Node>, b: Seq<Node>)
    ensures
        mixed_list(hash, a + b) == mixed_list(mixed_list(hash, a), b),
    decreases b.len(),
{
    if b.len() == 0 {
        assert(a + b =~= a);
    } else {
        law_listings_are_mixed_in_row(hash, a, b.drop_last());
        assert((a + b).drop_last() =~= a + b.drop_last());
        assert((a + b).last() == b.last());
    }
}

/// What is not served is not watched: a hidden entry, a symbolic link or an entry
/// that cannot be looked at makes no difference to a signature, wherever it stands.
pub proof fn law_what_is_not_served_is_not_watched(
    hash: u64,
    before: Seq<Node>,
    node: Node,
    behind: Seq<Node>,
)
    requires
        (node.name@.len() > 0 && node.name@[0] == '.' && node.name@ != ".well-known"@)
            || node.entry is Ignored,
    ensures
        mixed_list(hash, before + seq![node] + behind) == mixed_list(hash, before + behind),
{
    law_listings_are_mixed_in_row(hash, before + seq![node], behind);
    law_listings_are_mixed_in_row(hash, before, behind);
    let one = before + seq![node];
    assert(one.drop_last() =~= before);
    assert(one.last() == node);
    assert(mixed_list(hash, one) == mixed_node(mixed_list(hash, before), node));
}

/// A listing keeps two hashes apart.
pub proof fn law_a_listing_keeps_hashes_apart(a: u64, b: u64, nodes: Seq<Node>)
    ensures
        mixed_list(a, nodes) == mixed_list(b, nodes) ==> a == b,
    decreases nodes,
{
    if nodes.len() > 0 {
        law_a_listing_keeps_hashes_apart(a, b, nodes.drop_last());
        lemma_a_node_keeps_hashes_apart(
            mixed_list(a, nodes.drop_last()),
            mixed_list(b, nodes.drop_last()),
            nodes.last(),
        );
    }
}

proof fn lemma_a_node_keeps_hashes_apart(a: u64, b: u64, node: Node)
    ensures
        mixed_node(a, node) == mixed_node(b, node) ==> a == b,
    decreases node,
{
    let name = encode_utf8(node.name@);
    law_a_run_keeps_hashes_apart(a, b, name);
    match node.entry {
        Entry::File(s) => {
            lemma_stamped_apart(mixed_bytes(a, name), mixed_bytes(b, name), s, s);
        },
        Entry::Dir(children) => {
            law_a_listing_keeps_hashes_apart(
                mixed_bytes(a, name),
                mixed_bytes(b, name),
                children@,
            );
        },
        _ => {},
    }
}

/// Two trees are alike but for one visible file, whose size or whose time is
/// another. `path` leads to it: its place in each listing on the way.
pub open spec fn one_file_edited(a: Seq<Node>, b: Seq<Node>, path: Seq<int>) -> bool
    decreases path.len(),
{
    let at = path[0];
    &&& path.len() > 0
    &&& a.len() == b.len()
    &&& 0 <= at < a.len()
    &&& a.take(at) == b.take(at)
    &&& a.skip(at + 1) == b.skip(at + 1)
    &&& a[at].name@ == b[at].name@
    &&& !hidden(a[at].name@)
    &&& match (a[at].entry, b[at].entry) {
        (Entry::File(s), Entry::File(t)) => (s.len == t.len) != (s.mtime == t.mtime),
        (Entry::Dir(x), Entry::Dir(y)) => path.len() > 0 && one_file_edited(x@, y@, path.skip(1)),
        _ => false,
    }
}

/// An edit is noticed however deep in a tree it is made.
pub proof fn law_an_edit_anywhere_in_a_tree_is_noticed(
    hash: u64,
    a: Seq<Node>,
    b: Seq<Node>,
    path: Seq<int>,
)
    requires
        one_file_edited(a, b, path),
    ensures
        mixed_list(hash, a) != mixed_list(hash, b),
    decreases path.len(),
{
    let at = path[0];
    let h = mixed_list(hash, a.take(at));
    let name = encode_utf8(a[at].name@);
    let g = mixed_bytes(h, name);
    assert(mixed_node(h, a[at]) != mixed_node(h, b[at])) by {
        match (a[at].entry, b[at].entry) {
            (Entry::File(s), Entry::File(t)) => {
                lemma_stamped_apart(g, g, s, t);
            },
            (Entry::Dir(x), Entry::Dir(y)) => {
                law_an_edit_anywhere_in_a_tree_is_noticed(g, x@, y@, path.skip(1));
            },
            _ => {},
        }
    }
    assert(a =~= a.take(at) + seq![a[at]] + a.skip(at + 1));
    assert(b =~= b.take(at) + seq![b[at]] + b.skip(at + 1));
    assert((a.take(at) + seq![a[at]]).drop_last() =~= a.take(at));
    assert((b.take(at) + seq![b[at]]).drop_last() =~= b.take(at));
    law_listings_are_mixed_in_row(hash, a.take(at) + seq![a[at]], a.skip(at + 1));
    law_listings_are_mixed_in_row(hash, b.take(at) + seq![b[at]], b.skip(at + 1));
    law_a_listing_keeps_hashes_apart(
        mixed_node(h, a[at]),
        mixed_node(h, b[at]),
        a.skip(at + 1),
    );
}

/// Names are in the order of dictionaries: the first byte in which they differ
/// decides, and a name comes before every longer one that starts with it.
pub proof fn law_names_are_in_dictionary_order(
    front: Seq<u8>,
    x: u8,
    y: u8,
    a: Seq<u8>,
    b: Seq<u8>,
)
    ensures
        comes_before(front + seq![x] + a, front + seq![y] + b) <==> x < y || (x == y
            && comes_before(a, b)),
        comes_before(front, front + seq![y] + b),
        !comes_before(front + seq![y] + b, front),
    decreases front.len(),
{
    let p = front + seq![x] + a;
    let q = front + seq![y] + b;
    if front.len() == 0 {
        assert(p[0] == x && q[0] == y);
        assert(p.skip(1) =~= a && q.skip(1) =~= b);
    } else {
        law_names_are_in_dictionary_order(front.skip(1), x, y, a, b);
        assert(p[0] == front[0] && q[0] == front[0]);
        assert(p.skip(1) =~= front.skip(1) + seq![x] + a);
        assert(q.skip(1) =~= front.skip(1) + seq![y] + b);
    }
}

/// Every site's certificate and key are watched, in the order of the sites, and
/// nothing else is.
pub proof fn law_every_certificate_and_key_is_watched(sites: Seq<SiteModel>, i: int)
    requires
        0 <= i < sites.len(),
    ensures
        pem_paths(sites).len() == 2 * sites.len(),
        pem_paths(sites)[2 * i] == sites[i].cert,
        pem_paths(sites)[2 * i + 1] == sites[i].key,
    decreases sites.len(),
{
    let front = sites.drop_last();
    if front.len() > 0 {
        if i < front.len() {
            law_every_certificate_and_key_is_watched(front, i);
        } else {
            law_every_certificate_and_key_is_watched(front, 0);
        }
    } else {
        assert(pem_paths(front) =~= seq![]);
    }
}

/// Every document root is watched, as it is written, in the order of the sites; a
/// site without one adds none.
pub proof fn law_every_root_is_watched(sites: Seq<SiteModel>, s: SiteModel)
    ensures
        s.root matches Some(r) ==> roots_of(sites.push(s)) == roots_of(sites).push(r),
        s.root is None ==> roots_of(sites.push(s)) == roots_of(sites),
        roots_of(seq![]) == Seq::<Seq<char>>::empty(),
{
    assert(sites.push(s).drop_last() =~= sites);
}

} // verus!
