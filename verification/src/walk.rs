//! What a whole walk through a document root comes to.
//!
//! The cache is filled entry by entry. The laws here speak of the tree as a
//! whole: which files end up in the cache, under which URLs, and when a build is
//! given up.
use vstd::prelude::*;

use crate::cache::{
    course_of, entry_url, fits, hidden, law_walked_urls_are_distinct, took_in, visited,
    CacheBuilder, Cached, Course, Fault, Kind, Policy, Visit, VisitModel,
};
use crate::config::{Storage, Tuning};
use crate::text::strings;

verus! {

/// A directory entry as a walk meets it, with all that is below it.
pub struct Twig {
    pub name: Seq<char>,
    pub kind: Kind,
    /// What its metadata says.
    pub size: nat,
    /// Of a directory, its entries in the order of the listing; `None` where it
    /// cannot be listed.
    pub below: Option<Seq<Twig>>,
    /// Of a file, what it becomes; `None` where it cannot be read, or its
    /// snapshot cannot be written.
    pub made: Option<Cached>,
}

/// What a cache under way holds: the bytes charged so far, and the entries.
pub struct Filling {
    pub total: nat,
    pub entries: Map<Seq<char>, Cached>,
}

/// A filling after something failed.
pub open spec fn after_fault(f: Filling, fault: Fault) -> Option<Filling> {
    if course_of(fault) == Course::GiveUp {
        None
    } else {
        Some(f)
    }
}

/// A filling after one more entry of a cache; `None` where it does not fit.
pub open spec fn filed(
    t: Tuning,
    storage: Storage,
    f: Filling,
    url: Seq<char>,
    c: Cached,
) -> Option<Filling> {
    if fits(t, storage, f.total, c.size()) {
        Some(Filling { total: f.total + c.size(), entries: f.entries.insert(url, c) })
    } else {
        None
    }
}

/// A filling after a file that is to be loaded.
pub open spec fn loaded(
    t: Tuning,
    storage: Storage,
    f: Filling,
    url: Seq<char>,
    made: Option<Cached>,
) -> Option<Filling> {
    match made {
        Some(c) => filed(t, storage, f, url, c),
        None => match after_fault(f, Fault::Reading) {
            Some(g) => after_fault(g, Fault::Snapshot),
            None => None,
        },
    }
}

/// A filling after a directory entry and all that is below it; `None` where the
/// build is given up.
pub open spec fn walked_entry(
    t: Tuning,
    storage: Storage,
    f: Filling,
    prefix: Seq<char>,
    e: Twig,
) -> Option<Filling>
    decreases e,
{
    match visited(t, storage, f.total, prefix, e.name, e.kind, e.size) {
        VisitModel::Skip => Some(f),
        VisitModel::Oversized(_) => Some(f),
        VisitModel::OverBudget(_) => None,
        VisitModel::Descend(url) => match e.below {
            Some(list) => walked(t, storage, f, url, list),
            None => after_fault(f, Fault::Listing),
        },
        VisitModel::Load(url) => loaded(t, storage, f, url, e.made),
    }
}

/// A filling after the entries of a directory, one after the other, and all that
/// is below them; `None` where the build is given up.
pub open spec fn walked(
    t: Tuning,
    storage: Storage,
    f: Filling,
    prefix: Seq<char>,
    list: Seq<Twig>,
) -> Option<Filling>
    decreases list,
{
    if list.len() == 0 {
        Some(f)
    } else {
        match walked(t, storage, f, prefix, list.drop_last()) {
            Some(g) => walked_entry(t, storage, g, prefix, list.last()),
            None => None,
        }
    }
}

/// The URL of what lies at a path of names below `prefix`.
pub open spec fn url_of(prefix: Seq<char>, path: Seq<Seq<char>>) -> Seq<char>
    decreases path.len(),
{
    if path.len() == 0 {
        prefix
    } else {
        url_of(entry_url(prefix, path[0]), path.skip(1))
    }
}

/// `e` lies at a path of names below a listing. Only directories lead on: no path
/// goes through a symbolic link.
pub open spec fn lies_at(list: Seq<Twig>, path: Seq<Seq<char>>, e: Twig) -> bool
    decreases path.len(),
{
    path.len() > 0 && exists|i: int|
        {
            &&& 0 <= i < list.len()
            &&& (#[trigger] list[i]).name == path[0]
            &&& if path.len() == 1 {
                list[i] == e
            } else {
                &&& list[i].kind == Kind::Dir
                &&& list[i].below matches Some(below)
                &&& lies_at(below, path.skip(1), e)
            }
        }
}

/// No name on a path is hidden.
pub open spec fn in_sight(path: Seq<Seq<char>>) -> bool {
    forall|i: int| 0 <= i < path.len() ==> !hidden(#[trigger] path[i])
}

/// A regular file that is small enough to be loaded.
pub open spec fn loadable(t: Tuning, e: Twig) -> bool {
    e.kind == Kind::File && e.size <= t.max_file_size
}

/// A directory that cannot be listed.
pub open spec fn barred(e: Twig) -> bool {
    e.kind == Kind::Dir && e.below is None
}

/// The files that a directory entry brings, and the directories below it that
/// cannot be listed, with their URLs in the order of the walk.
pub open spec fn entry_stops(t: Tuning, prefix: Seq<char>, e: Twig) -> Seq<(Seq<char>, Twig)>
    decreases e,
{
    if hidden(e.name) {
        seq![]
    } else if loadable(t, e) || barred(e) {
        seq![(entry_url(prefix, e.name), e)]
    } else if e.kind == Kind::Dir {
        match e.below {
            Some(list) => stops(t, entry_url(prefix, e.name), list),
            None => seq![],
        }
    } else {
        seq![]
    }
}

/// The files that a listing brings, and the directories below it that cannot be
/// listed, with their URLs in the order of the walk.
pub open spec fn stops(t: Tuning, prefix: Seq<char>, list: Seq<Twig>) -> Seq<(Seq<char>, Twig)>
    decreases list,
{
    if list.len() == 0 {
        seq![]
    } else {
        stops(t, prefix, list.drop_last()) + entry_stops(t, prefix, list.last())
    }
}

/// The bytes that some files retain once they are loaded.
pub open spec fn retained(at: Seq<(Seq<char>, Twig)>) -> nat
    decreases at.len(),
{
    if at.len() == 0 {
        0
    } else {
        retained(at.drop_last()) + (match at.last().1.made {
            Some(c) => c.size(),
            None => 0,
        })
    }
}

/// A file passes the budget while `total` bytes are held: in memory mode by its
/// size, and in either mode by what it retains. In disk mode only the machine's
/// own limit stands.
pub open spec fn passes_budget(t: Tuning, storage: Storage, total: nat, e: Twig) -> bool {
    ||| storage == Storage::Memory && total + e.size > t.max_total_bytes
    ||| e.made matches Some(c) && !fits(t, storage, total, c.size())
}

/// A filling after one stop.
pub open spec fn past(
    t: Tuning,
    storage: Storage,
    f: Filling,
    stop: (Seq<char>, Twig),
) -> Option<Filling> {
    if barred(stop.1) {
        after_fault(f, Fault::Listing)
    } else if storage == Storage::Memory && f.total + stop.1.size > t.max_total_bytes {
        None
    } else {
        loaded(t, storage, f, stop.0, stop.1.made)
    }
}

/// A filling after some stops, one after the other.
pub open spec fn past_all(
    t: Tuning,
    storage: Storage,
    f: Filling,
    at: Seq<(Seq<char>, Twig)>,
) -> Option<Filling>
    decreases at.len(),
{
    if at.len() == 0 {
        Some(f)
    } else {
        match past_all(t, storage, f, at.drop_last()) {
            Some(g) => past(t, storage, g, at.last()),
            None => None,
        }
    }
}

proof fn lemma_past_both(
    t: Tuning,
    storage: Storage,
    f: Filling,
    a: Seq<(Seq<char>, Twig)>,
    b: Seq<(Seq<char>, Twig)>,
)
    ensures
        past_all(t, storage, f, a + b) == (match past_all(t, storage, f, a) {
            Some(g) => past_all(t, storage, g, b),
            None => None,
        }),
    decreases b.len(),
{
    if b.len() == 0 {
        assert(a + b == a);
    } else {
        lemma_past_both(t, storage, f, a, b.drop_last());
        assert((a + b).drop_last() =~= a + b.drop_last());
        assert((a + b).last() == b.last());
    }
}

/// A walk past a directory entry is a walk past its stops.
proof fn lemma_entry_stops(t: Tuning, storage: Storage, f: Filling, prefix: Seq<char>, e: Twig)
    ensures
        walked_entry(t, storage, f, prefix, e) == past_all(
            t,
            storage,
            f,
            entry_stops(t, prefix, e),
        ),
    decreases e,
{
    let at = entry_stops(t, prefix, e);
    if !hidden(e.name) {
        if loadable(t, e) || barred(e) {
            assert(at.drop_last() =~= seq![]);
            assert(past_all(t, storage, f, at.drop_last()) == Some(f));
        } else if e.kind == Kind::Dir {
            lemma_stops(t, storage, f, entry_url(prefix, e.name), e.below->0);
        }
    }
}

/// A walk through a listing is a walk past its stops.
proof fn lemma_stops(
    t: Tuning,
    storage: Storage,
    f: Filling,
    prefix: Seq<char>,
    list: Seq<Twig>,
)
    ensures
        walked(t, storage, f, prefix, list) == past_all(t, storage, f, stops(t, prefix, list)),
    decreases list,
{
    if list.len() > 0 {
        let before = stops(t, prefix, list.drop_last());
        lemma_stops(t, storage, f, prefix, list.drop_last());
        lemma_past_both(t, storage, f, before, entry_stops(t, prefix, list.last()));
        match walked(t, storage, f, prefix, list.drop_last()) {
            Some(g) => lemma_entry_stops(t, storage, g, prefix, list.last()),
            None => {},
        }
    }
}

/// What walking past some stops comes to.
proof fn lemma_past_all(
    t: Tuning,
    storage: Storage,
    f: Filling,
    at: Seq<(Seq<char>, Twig)>,
)
    ensures
        past_all(t, storage, f, at) is None <==> exists|i: int|
            0 <= i < at.len() && (barred((#[trigger] at[i]).1) || passes_budget(
                t,
                storage,
                f.total + retained(at.take(i)),
                at[i].1,
            )),
        past_all(t, storage, f, at) matches Some(g) ==> {
            &&& g.total == f.total + retained(at)
            &&& forall|url: Seq<char>| #[trigger]
                g.entries.contains_key(url) <==> f.entries.contains_key(url) || exists|i: int|
                    0 <= i < at.len() && (#[trigger] at[i]).0 == url && at[i].1.made is Some
            &&& forall|url: Seq<char>| #[trigger]
                g.entries.contains_key(url) ==> (f.entries.contains_key(url) && g.entries[url]
                    == f.entries[url]) || exists|i: int|
                    0 <= i < at.len() && (#[trigger] at[i]).0 == url && at[i].1.made == Some(
                        g.entries[url],
                    )
        },
    decreases at.len(),
{
    if at.len() > 0 {
        let n = at.len() - 1;
        let rest = at.drop_last();
        lemma_past_all(t, storage, f, rest);
        assert(at.take(n) =~= rest);
        assert forall|i: int| 0 <= i < n implies #[trigger] rest[i] == at[i] && rest.take(i)
            == at.take(i) by {
            assert(rest.take(i) =~= at.take(i));
        }
        match past_all(t, storage, f, rest) {
            None => {
                let i = choose|i: int|
                    0 <= i < rest.len() && (barred((#[trigger] rest[i]).1) || passes_budget(
                        t,
                        storage,
                        f.total + retained(rest.take(i)),
                        rest[i].1,
                    ));
                assert(at[i] == rest[i]);
            },
            Some(g) => {
                assert(at[n] == at.last());
                assert forall|i: int| 0 <= i < n implies !barred((#[trigger] at[i]).1)
                    && !passes_budget(t, storage, f.total + retained(at.take(i)), at[i].1) by {
                    assert(rest[i] == at[i]);
                }
                match past(t, storage, g, at.last()) {
                    None => {
                        assert(barred(at[n].1) || passes_budget(
                            t,
                            storage,
                            f.total + retained(at.take(n)),
                            at[n].1,
                        ));
                    },
                    Some(h) => {
                        lemma_filed(f, g, h, at);
                    },
                }
            },
        }
    }
}

/// One more stop behind others that were walked past.
proof fn lemma_filed(f: Filling, g: Filling, h: Filling, at: Seq<(Seq<char>, Twig)>)
    requires
        at.len() > 0,
        h.entries == (match at.last().1.made {
            Some(c) => g.entries.insert(at.last().0, c),
            None => g.entries,
        }),
        forall|url: Seq<char>| #[trigger]
            g.entries.contains_key(url) <==> f.entries.contains_key(url) || exists|i: int|
                0 <= i < at.drop_last().len() && (#[trigger] at.drop_last()[i]).0 == url
                    && at.drop_last()[i].1.made is Some,
        forall|url: Seq<char>| #[trigger]
            g.entries.contains_key(url) ==> (f.entries.contains_key(url) && g.entries[url]
                == f.entries[url]) || exists|i: int|
                0 <= i < at.drop_last().len() && (#[trigger] at.drop_last()[i]).0 == url
                    && at.drop_last()[i].1.made == Some(g.entries[url]),
    ensures
        forall|url: Seq<char>| #[trigger]
            h.entries.contains_key(url) <==> f.entries.contains_key(url) || exists|i: int|
                0 <= i < at.len() && (#[trigger] at[i]).0 == url && at[i].1.made is Some,
        forall|url: Seq<char>| #[trigger]
            h.entries.contains_key(url) ==> (f.entries.contains_key(url) && h.entries[url]
                == f.entries[url]) || exists|i: int|
                0 <= i < at.len() && (#[trigger] at[i]).0 == url && at[i].1.made == Some(
                    h.entries[url],
                ),
{
    let rest = at.drop_last();
    let n = at.len() - 1;
    assert(at[n] == at.last());
    assert forall|url: Seq<char>| #[trigger] h.entries.contains_key(url) implies
        f.entries.contains_key(url) || exists|i: int|
        0 <= i < at.len() && (#[trigger] at[i]).0 == url && at[i].1.made is Some by {
        if g.entries.contains_key(url) && !f.entries.contains_key(url) {
            let i = choose|i: int|
                0 <= i < rest.len() && (#[trigger] rest[i]).0 == url && rest[i].1.made is Some;
            assert(at[i] == rest[i]);
        }
    }
    assert forall|url: Seq<char>|
        f.entries.contains_key(url) || exists|i: int|
            0 <= i < at.len() && (#[trigger] at[i]).0 == url
                && at[i].1.made is Some implies #[trigger] h.entries.contains_key(url) by {
        if !f.entries.contains_key(url) {
            let i = choose|i: int|
                0 <= i < at.len() && (#[trigger] at[i]).0 == url && at[i].1.made is Some;
            if i < n {
                assert(at[i] == rest[i]);
            }
        }
        assert(g.entries.contains_key(url) || h.entries.contains_key(url));
    }
    assert forall|url: Seq<char>| #[trigger] h.entries.contains_key(url) implies (
    f.entries.contains_key(url) && h.entries[url] == f.entries[url]) || exists|i: int|
        0 <= i < at.len() && (#[trigger] at[i]).0 == url && at[i].1.made == Some(
            h.entries[url],
        ) by {
        if at.last().1.made is Some && url == at.last().0 {
            assert(at[n].0 == url);
        } else {
            assert(g.entries.contains_key(url));
            if !(f.entries.contains_key(url) && g.entries[url] == f.entries[url]) {
                let i = choose|i: int|
                    0 <= i < rest.len() && (#[trigger] rest[i]).0 == url && rest[i].1.made == Some(
                        g.entries[url],
                    );
                assert(at[i] == rest[i]);
            }
        }
    }
}

/// What the first entries of a listing bring, the listing brings.
proof fn lemma_in_stops(t: Tuning, prefix: Seq<char>, list: Seq<Twig>, i: int)
    requires
        0 <= i < list.len(),
    ensures
        forall|s: (Seq<char>, Twig)|
            entry_stops(t, prefix, list[i]).contains(s) ==> #[trigger] stops(
                t,
                prefix,
                list,
            ).contains(s),
    decreases list.len(),
{
    let rest = stops(t, prefix, list.drop_last());
    let own = entry_stops(t, prefix, list.last());
    assert forall|s: (Seq<char>, Twig)|
        entry_stops(t, prefix, list[i]).contains(s) implies #[trigger] stops(
        t,
        prefix,
        list,
    ).contains(s) by {
        if i < list.len() - 1 {
            lemma_in_stops(t, prefix, list.drop_last(), i);
            assert(list.drop_last()[i] == list[i]);
            assert(rest.contains(s));
            let k = choose|k: int| 0 <= k < rest.len() && #[trigger] rest[k] == s;
            assert((rest + own)[k] == s);
        } else {
            let k = choose|k: int| 0 <= k < own.len() && #[trigger] own[k] == s;
            assert((rest + own)[rest.len() + k] == s);
        }
    }
}

/// Every path to a file or a closed directory leads to a stop.
proof fn lemma_path_stops(
    t: Tuning,
    prefix: Seq<char>,
    list: Seq<Twig>,
    path: Seq<Seq<char>>,
    e: Twig,
)
    requires
        lies_at(list, path, e),
        in_sight(path),
        loadable(t, e) || barred(e),
    ensures
        stops(t, prefix, list).contains((url_of(prefix, path), e)),
    decreases path.len(),
{
    reveal_with_fuel(url_of, 2);
    let i = choose|i: int|
        {
            &&& 0 <= i < list.len()
            &&& (#[trigger] list[i]).name == path[0]
            &&& if path.len() == 1 {
                list[i] == e
            } else {
                &&& list[i].kind == Kind::Dir
                &&& list[i].below matches Some(below)
                &&& lies_at(below, path.skip(1), e)
            }
        };
    let stop = (url_of(prefix, path), e);
    let here = entry_url(prefix, path[0]);
    assert(!hidden(path[0]));
    let own = entry_stops(t, prefix, list[i]);
    if path.len() == 1 {
        assert(url_of(here, path.skip(1)) == here);
        assert(own[0] == stop);
    } else {
        assert forall|j: int| 0 <= j < path.skip(1).len() implies !hidden(
            #[trigger] path.skip(1)[j],
        ) by {
            assert(path.skip(1)[j] == path[j + 1]);
        }
        lemma_path_stops(t, here, list[i].below->0, path.skip(1), e);
        assert(own.contains(stop));
    }
    lemma_in_stops(t, prefix, list, i);
}

/// What lies below the first entries of a listing lies below the listing.
proof fn lemma_lies_further(list: Seq<Twig>, path: Seq<Seq<char>>, e: Twig)
    requires
        list.len() > 0,
        lies_at(list.drop_last(), path, e),
    ensures
        lies_at(list, path, e),
{
    let rest = list.drop_last();
    let i = choose|i: int|
        {
            &&& 0 <= i < rest.len()
            &&& (#[trigger] rest[i]).name == path[0]
            &&& if path.len() == 1 {
                rest[i] == e
            } else {
                &&& rest[i].kind == Kind::Dir
                &&& rest[i].below matches Some(below)
                &&& lies_at(below, path.skip(1), e)
            }
        };
    assert(list[i] == rest[i]);
}

/// A path that leads to a stop.
proof fn lemma_stop_path(
    t: Tuning,
    prefix: Seq<char>,
    list: Seq<Twig>,
    s: (Seq<char>, Twig),
) -> (path: Seq<Seq<char>>)
    requires
        stops(t, prefix, list).contains(s),
    ensures
        lies_at(list, path, s.1),
        in_sight(path),
        loadable(t, s.1) || barred(s.1),
        s.0 == url_of(prefix, path),
    decreases list,
{
    reveal_with_fuel(url_of, 2);
    let rest = stops(t, prefix, list.drop_last());
    let own = entry_stops(t, prefix, list.last());
    let all = stops(t, prefix, list);
    let k = choose|k: int| 0 <= k < all.len() && #[trigger] all[k] == s;
    if k < rest.len() {
        assert(rest[k] == s);
        let path = lemma_stop_path(t, prefix, list.drop_last(), s);
        lemma_lies_further(list, path, s.1);
        path
    } else {
        let e = list.last();
        assert(own[k - rest.len()] == s);
        assert(list[list.len() - 1] == e);
        if loadable(t, e) || barred(e) {
            let path = seq![e.name];
            assert(path.skip(1) =~= seq![]);
            assert(lies_at(list, path, e));
            path
        } else {
            let here = entry_url(prefix, e.name);
            let below = e.below->0;
            assert(stops(t, here, below).contains(s));
            let further = lemma_stop_path(t, here, below, s);
            let path = seq![e.name] + further;
            assert(path.skip(1) =~= further);
            assert forall|j: int| 0 <= j < path.len() implies !hidden(#[trigger] path[j]) by {
                if j > 0 {
                    assert(path[j] == further[j - 1]);
                }
            }
            assert(lies_at(list, path, s.1));
            path
        }
    }
}

/// A file that a walk brings into the cache: a regular one, within the size
/// limit, that could be read and kept, with no hidden name on its path and no
/// symbolic link.
pub open spec fn served_at(t: Tuning, list: Seq<Twig>, path: Seq<Seq<char>>, e: Twig) -> bool {
    lies_at(list, path, e) && in_sight(path) && loadable(t, e) && e.made is Some
}

/// A directory that a walk enters but cannot list.
pub open spec fn barred_at(list: Seq<Twig>, path: Seq<Seq<char>>, e: Twig) -> bool {
    lies_at(list, path, e) && in_sight(path) && barred(e)
}

/// `e` is a file that a listing brings, and `total` bytes are held when the walk
/// meets it: those held before, and what the files on the way there retain.
pub open spec fn met_with(
    t: Tuning,
    prefix: Seq<char>,
    list: Seq<Twig>,
    held: nat,
    total: nat,
    e: Twig,
) -> bool {
    exists|i: int|
        {
            &&& 0 <= i < stops(t, prefix, list).len()
            &&& (#[trigger] stops(t, prefix, list)[i]).1 == e
            &&& loadable(t, e)
            &&& total == held + retained(stops(t, prefix, list).take(i))
        }
}

/// A walk brings exactly the servable files into the cache. After it, the cache
/// has a URL that it did not have before where, and only where, a regular file
/// within the size limit lies at that path below the root, with no hidden name
/// and no symbolic link on the way, and it is that file's entry.
pub proof fn law_a_walk_serves_exactly_the_plain_files(
    t: Tuning,
    storage: Storage,
    f: Filling,
    prefix: Seq<char>,
    list: Seq<Twig>,
)
    requires
        walked(t, storage, f, prefix, list) is Some,
    ensures
        ({
            let g = walked(t, storage, f, prefix, list)->0;
            &&& forall|url: Seq<char>| #[trigger]
                g.entries.contains_key(url) <==> f.entries.contains_key(url) || exists|
                    path: Seq<Seq<char>>,
                    e: Twig,
                | #[trigger] served_at(t, list, path, e) && url == url_of(prefix, path)
            &&& forall|url: Seq<char>| #[trigger]
                g.entries.contains_key(url) ==> (f.entries.contains_key(url) && g.entries[url]
                    == f.entries[url]) || exists|path: Seq<Seq<char>>, e: Twig| #[trigger]
                    served_at(t, list, path, e) && url == url_of(prefix, path) && e.made == Some(
                        g.entries[url],
                    )
        }),
{
    let at = stops(t, prefix, list);
    let g = walked(t, storage, f, prefix, list)->0;
    lemma_stops(t, storage, f, prefix, list);
    lemma_past_all(t, storage, f, at);
    assert forall|i: int| 0 <= i < at.len() && (#[trigger] at[i]).1.made is Some implies exists|
        path: Seq<Seq<char>>,
    | #[trigger]
        served_at(t, list, path, at[i].1) && at[i].0 == url_of(prefix, path) by {
        assert(at.contains(at[i]));
        let path = lemma_stop_path(t, prefix, list, at[i]);
        assert(served_at(t, list, path, at[i].1));
    }
    assert forall|path: Seq<Seq<char>>, e: Twig| #[trigger]
        served_at(t, list, path, e) implies g.entries.contains_key(url_of(prefix, path)) by {
        lemma_path_stops(t, prefix, list, path, e);
        let i = choose|i: int|
            0 <= i < at.len() && #[trigger] at[i] == (url_of(prefix, path), e);
        assert(at[i].0 == url_of(prefix, path) && at[i].1.made is Some);
    }
}

/// A build is given up exactly where it cannot be complete: a directory that the
/// walk enters cannot be listed, or a file takes the bytes held so far over the
/// budget. Otherwise the total has grown by what the files retain.
pub proof fn law_a_walk_fails_exactly_where_it_would_be_incomplete(
    t: Tuning,
    storage: Storage,
    f: Filling,
    prefix: Seq<char>,
    list: Seq<Twig>,
)
    ensures
        walked(t, storage, f, prefix, list) is None <==> {
            ||| exists|path: Seq<Seq<char>>, e: Twig| #[trigger] barred_at(list, path, e)
            ||| exists|total: nat, e: Twig| #[trigger]
                met_with(t, prefix, list, f.total, total, e) && passes_budget(t, storage, total, e)
        },
        walked(t, storage, f, prefix, list) matches Some(g) ==> g.total == f.total + retained(
            stops(t, prefix, list),
        ),
{
    let at = stops(t, prefix, list);
    lemma_stops(t, storage, f, prefix, list);
    lemma_past_all(t, storage, f, at);
    if walked(t, storage, f, prefix, list) is None {
        let i = choose|i: int|
            0 <= i < at.len() && (barred((#[trigger] at[i]).1) || passes_budget(
                t,
                storage,
                f.total + retained(at.take(i)),
                at[i].1,
            ));
        assert(at.contains(at[i]));
        let path = lemma_stop_path(t, prefix, list, at[i]);
        if barred(at[i].1) {
            assert(barred_at(list, path, at[i].1));
        } else {
            assert(met_with(t, prefix, list, f.total, f.total + retained(at.take(i)), at[i].1));
        }
    } else {
        assert forall|path: Seq<Seq<char>>, e: Twig| !#[trigger] barred_at(list, path, e) by {
            if barred_at(list, path, e) {
                lemma_path_stops(t, prefix, list, path, e);
                let i = choose|i: int|
                    0 <= i < at.len() && #[trigger] at[i] == (url_of(prefix, path), e);
                assert(barred(at[i].1));
            }
        }
        assert forall|total: nat, e: Twig| #[trigger]
            met_with(t, prefix, list, f.total, total, e) implies !passes_budget(
            t,
            storage,
            total,
            e,
        ) by {
            let i = choose|i: int|
                {
                    &&& 0 <= i < stops(t, prefix, list).len()
                    &&& (#[trigger] stops(t, prefix, list)[i]).1 == e
                    &&& loadable(t, e)
                    &&& total == f.total + retained(stops(t, prefix, list).take(i))
                };
            assert(!barred(at[i].1));
        }
    }
}

/// What a builder holds.
pub open spec fn filling(b: CacheBuilder) -> Filling {
    Filling { total: b.total as nat, entries: b.cache@ }
}

/// A builder that takes an entry in does one step of a walk: it fails where the
/// walk is given up, and otherwise holds what the walk goes on with.
pub proof fn law_builders_keep_to_the_walk(
    before: CacheBuilder,
    after: CacheBuilder,
    url: Seq<char>,
    c: Cached,
)
    requires
        fits(before.policy.t, before.policy.storage, before.total as nat, c.size()) ==> took_in(
            before,
            after,
            url,
            c,
        ),
    ensures
        filed(before.policy.t, before.policy.storage, filling(before), url, c) == (if fits(
            before.policy.t,
            before.policy.storage,
            before.total as nat,
            c.size(),
        ) {
            Some(filling(after))
        } else {
            None
        }),
{
}

/// The last name on a path is the last of its URL.
proof fn lemma_url_last(prefix: Seq<char>, path: Seq<Seq<char>>)
    requires
        path.len() > 0,
    ensures
        url_of(prefix, path) == entry_url(url_of(prefix, path.drop_last()), path.last()),
        url_of(prefix, path).len() > prefix.len(),
    decreases path.len(),
{
    reveal_strlit("/");
    reveal_with_fuel(url_of, 2);
    if path.len() > 1 {
        lemma_url_last(entry_url(prefix, path[0]), path.skip(1));
        assert(path.skip(1).drop_last() =~= path.drop_last().skip(1));
    }
}

/// One URL is one file, over the whole tree: two paths have the same URL only
/// where every name agrees.
pub proof fn law_one_url_is_one_path(
    prefix: Seq<char>,
    path1: Seq<Seq<char>>,
    path2: Seq<Seq<char>>,
)
    requires
        forall|i: int| 0 <= i < path1.len() ==> !(#[trigger] path1[i]).contains('/'),
        forall|i: int| 0 <= i < path2.len() ==> !(#[trigger] path2[i]).contains('/'),
        url_of(prefix, path1) == url_of(prefix, path2),
    ensures
        path1 == path2,
    decreases path1.len(),
{
    if path1.len() > 0 {
        lemma_url_last(prefix, path1);
    }
    if path2.len() > 0 {
        lemma_url_last(prefix, path2);
    }
    if path1.len() > 0 && path2.len() > 0 {
        law_walked_urls_are_distinct(
            url_of(prefix, path1.drop_last()),
            path1.last(),
            url_of(prefix, path2.drop_last()),
            path2.last(),
        );
        law_one_url_is_one_path(prefix, path1.drop_last(), path2.drop_last());
        assert(path1 =~= path1.drop_last().push(path1.last()));
        assert(path2 =~= path2.drop_last().push(path2.last()));
    } else {
        assert(path1 =~= path2);
    }
}

// ----------------------------------------------------------------- step by step

/// A directory that a walk is in.
pub struct Frame {
    pub prefix: String,
    /// The names in its listing.
    pub list: Vec<String>,
    /// How many of them are done.
    pub next: usize,
}

/// What a frame says.
#[verifier::ext_equal]
pub struct FrameModel {
    pub prefix: Seq<char>,
    pub list: Seq<Seq<char>>,
    pub next: nat,
}

impl View for Frame {
    type V = FrameModel;

    open spec fn view(&self) -> FrameModel {
        FrameModel { prefix: self.prefix@, list: strings(self.list@), next: self.next as nat }
    }
}

/// What a walk asks for. An entry is told by the depth of its listing, of which
/// the root's is 1, and by its place in it.
pub enum Step {
    /// Nothing: go on.
    Next,
    /// List this directory, and hand over what is in it.
    List { depth: usize, index: usize, url: String },
    /// Say that this file is left out as too large, and go on.
    Oversized(String),
    /// Give up: this file cannot fit the budget.
    OverBudget(String),
    /// Read this file, and hand over what it becomes.
    Read { depth: usize, index: usize, url: String },
    /// Nothing: all is done.
    Done,
}

/// What a [`Step`] says.
#[verifier::ext_equal]
pub enum StepModel {
    Next,
    List { depth: nat, index: nat, url: Seq<char> },
    Oversized(Seq<char>),
    OverBudget(Seq<char>),
    Read { depth: nat, index: nat, url: Seq<char> },
    Done,
}

impl View for Step {
    type V = StepModel;

    open spec fn view(&self) -> StepModel {
        match self {
            Step::Next => StepModel::Next,
            Step::List { depth, index, url } => StepModel::List {
                depth: *depth as nat,
                index: *index as nat,
                url: url@,
            },
            Step::Oversized(url) => StepModel::Oversized(url@),
            Step::OverBudget(url) => StepModel::OverBudget(url@),
            Step::Read { depth, index, url } => StepModel::Read {
                depth: *depth as nat,
                index: *index as nat,
                url: url@,
            },
            Step::Done => StepModel::Done,
        }
    }
}

/// The directories that a walk is in once it is past the next entry, or past the
/// end of a listing.
pub open spec fn frames_after(frames: Seq<FrameModel>) -> Seq<FrameModel> {
    if frames.len() == 0 {
        frames
    } else if frames.last().next >= frames.last().list.len() {
        frames.drop_last()
    } else {
        frames.drop_last().push(FrameModel { next: frames.last().next + 1, ..frames.last() })
    }
}

/// What a walk asks for, with `total` bytes held, where the next entry is of this
/// kind and size.
pub open spec fn step_of(
    t: Tuning,
    storage: Storage,
    total: nat,
    frames: Seq<FrameModel>,
    kind: Kind,
    size: nat,
) -> StepModel {
    if frames.len() == 0 {
        StepModel::Done
    } else if frames.last().next >= frames.last().list.len() {
        StepModel::Next
    } else {
        let at = frames.last();
        match visited(t, storage, total, at.prefix, at.list[at.next as int], kind, size) {
            VisitModel::Skip => StepModel::Next,
            VisitModel::Descend(url) => StepModel::List {
                depth: frames.len(),
                index: at.next,
                url,
            },
            VisitModel::Oversized(url) => StepModel::Oversized(url),
            VisitModel::OverBudget(url) => StepModel::OverBudget(url),
            VisitModel::Load(url) => StepModel::Read { depth: frames.len(), index: at.next, url },
        }
    }
}

/// A directory that a walk has just entered.
pub open spec fn frame_of(url: Seq<char>, list: Seq<Seq<char>>) -> FrameModel {
    FrameModel { prefix: url, list, next: 0 }
}

/// A walk through a document root, as a sequence of steps. Listing a directory,
/// reading a file and writing a snapshot are left to the caller.
pub struct Walk<'a> {
    /// What is filled.
    pub builder: CacheBuilder<'a>,
    pub frames: Vec<Frame>,
}

impl<'a> Walk<'a> {
    /// The directories that the walk is in, the innermost last.
    pub open spec fn frames(&self) -> Seq<FrameModel> {
        Seq::new(self.frames@.len(), |i: int| self.frames@[i]@)
    }

    /// Starts a walk at the root, with its listing and with `total` bytes already
    /// held.
    pub fn new(total: usize, policy: &'a Policy, list: Vec<String>) -> (r: Walk<'a>)
        ensures
            r.builder.policy == policy,
            r.builder.total == total,
            r.builder.cache.wf(),
            r.builder.cache@ == Map::<Seq<char>, Cached>::empty(),
            r.builder.cache.held() == 0,
            r.frames() == seq![frame_of(Seq::empty(), strings(list@))],
    {
        let builder = CacheBuilder::new(total, policy);
        let prefix = String::new();
        let mut frames: Vec<Frame> = Vec::new();
        frames.push(Frame { prefix, list, next: 0 });
        let r = Walk { builder, frames };
        assert(r.frames() =~= seq![frame_of(Seq::empty(), strings(list@))]);
        r
    }

    /// The entry that the next step goes past, if it goes past one.
    pub fn upcoming(&self) -> (r: Option<(usize, usize)>)
        ensures
            match r {
                Some((depth, index)) => {
                    &&& depth == self.frames().len() > 0
                    &&& index == self.frames().last().next < self.frames().last().list.len()
                },
                None => self.frames().len() == 0 || self.frames().last().next
                    >= self.frames().last().list.len(),
            },
    {
        let depth: usize = self.frames.len();
        if depth == 0 {
            return None;
        }
        let at = &self.frames[depth - 1];
        assert(self.frames().last() == at@);
        if at.next < at.list.len() {
            Some((depth, at.next))
        } else {
            None
        }
    }

    /// Goes past the next entry, and says what it asks for. `kind` and `size` are
    /// what the metadata of the entry say; where there is none, they do not count.
    pub fn step(&mut self, kind: Kind, size: usize) -> (r: Step)
        ensures
            final(self).builder == old(self).builder,
            final(self).frames() == frames_after(old(self).frames()),
            r@ == step_of(
                old(self).builder.policy.t,
                old(self).builder.policy.storage,
                old(self).builder.total as nat,
                old(self).frames(),
                kind,
                size as nat,
            ),
    {
        let depth: usize = self.frames.len();
        let ghost before = self.frames();
        let mut at = match self.frames.pop() {
            Some(at) => at,
            None => {
                return Step::Done;
            },
        };
        assert(self.frames() =~= before.drop_last());
        assert(at@ == before.last());
        let index: usize = at.next;
        if index >= at.list.len() {
            return Step::Next;
        }
        let visit = self.builder.visit(
            at.prefix.as_str(),
            at.list[index].as_str(),
            kind,
            size,
        );
        assert(strings(at.list@)[index as int] == at.list@[index as int]@);
        at.next = index + 1;
        self.frames.push(at);
        assert(self.frames() =~= frames_after(before));
        match visit {
            Visit::Skip => Step::Next,
            Visit::Descend(url) => Step::List { depth, index, url },
            Visit::Oversized(url) => Step::Oversized(url),
            Visit::OverBudget(url) => Step::OverBudget(url),
            Visit::Load(url) => Step::Read { depth, index, url },
        }
    }

    /// Enters a directory that was listed.
    pub fn enter(&mut self, url: String, list: Vec<String>)
        ensures
            final(self).builder == old(self).builder,
            final(self).frames() == old(self).frames().push(frame_of(url@, strings(list@))),
    {
        let ghost before = self.frames();
        self.frames.push(Frame { prefix: url, list, next: 0 });
        assert(self.frames() =~= before.push(frame_of(url@, strings(list@))));
    }

    /// Files what a file has become. `false` where it does not fit, and the build
    /// is to be given up.
    pub fn take_in(&mut self, url: String, cached: Cached) -> (r: bool)
        requires
            old(self).builder.cache.wf(),
            cached.wf(),
        ensures
            final(self).frames() == old(self).frames(),
            final(self).builder.cache.wf(),
            final(self).builder.policy == old(self).builder.policy,
            r == fits(
                old(self).builder.policy.t,
                old(self).builder.policy.storage,
                old(self).builder.total as nat,
                cached.size(),
            ),
            r ==> took_in(old(self).builder, final(self).builder, url@, cached),
            !r ==> final(self).builder == old(self).builder,
    {
        self.builder.take_in(url, cached)
    }
}

/// A walk under way: what is filled, the directories that it is in, and the
/// entries of each of them with all that is below.
pub struct Going {
    pub filling: Filling,
    pub frames: Seq<FrameModel>,
    pub trees: Seq<Seq<Twig>>,
}

/// The names in a listing.
pub open spec fn names_of(list: Seq<Twig>) -> Seq<Seq<char>> {
    Seq::new(list.len(), |i: int| list[i].name)
}

/// The frames of a walk show the trees that it goes through.
pub open spec fn shows(g: Going) -> bool {
    &&& g.frames.len() == g.trees.len()
    &&& forall|i: int|
        0 <= i < g.frames.len() ==> (#[trigger] g.frames[i]).list == names_of(g.trees[i])
            && g.frames[i].next <= g.trees[i].len()
}

/// The start of a walk.
pub open spec fn setting_out(f: Filling, prefix: Seq<char>, list: Seq<Twig>) -> Going {
    Going { filling: f, frames: seq![frame_of(prefix, names_of(list))], trees: seq![list] }
}

/// The entry that a walk goes past next.
pub open spec fn upcoming(g: Going) -> Twig {
    g.trees.last()[g.frames.last().next as int]
}

/// What a walk under way asks for.
pub open spec fn going_step(t: Tuning, storage: Storage, g: Going) -> StepModel {
    step_of(t, storage, g.filling.total, g.frames, upcoming(g).kind, upcoming(g).size)
}

/// One step of a walk, with what it asked for handed over.
pub open spec fn goes(t: Tuning, storage: Storage, a: Going, b: Going) -> bool {
    let after = frames_after(a.frames);
    match going_step(t, storage, a) {
        StepModel::Done => false,
        StepModel::OverBudget(_) => false,
        StepModel::List { depth: _, index: _, url } => match upcoming(a).below {
            Some(list) => {
                &&& b.filling == a.filling
                &&& b.frames == after.push(frame_of(url, names_of(list)))
                &&& b.trees == a.trees.push(list)
            },
            None => after_fault(a.filling, Fault::Listing) == Some(b.filling) && b.frames == after
                && b.trees == a.trees,
        },
        StepModel::Read { depth: _, index: _, url } => {
            &&& loaded(t, storage, a.filling, url, upcoming(a).made) == Some(b.filling)
            &&& b.frames == after
            &&& b.trees == a.trees
        },
        _ => {
            &&& b.filling == a.filling
            &&& b.frames == after
            &&& b.trees == a.trees.take(after.len() as int)
        },
    }
}

/// A walk that is over, with all done.
pub open spec fn is_done(t: Tuning, storage: Storage, g: Going) -> bool {
    going_step(t, storage, g) == StepModel::Done
}

/// A walk that is to be given up.
pub open spec fn is_given_up(t: Tuning, storage: Storage, g: Going) -> bool {
    match going_step(t, storage, g) {
        StepModel::OverBudget(_) => true,
        StepModel::List { depth: _, index: _, url: _ } => upcoming(g).below is None && after_fault(
            g.filling,
            Fault::Listing,
        ) is None,
        StepModel::Read { depth: _, index: _, url } => loaded(
            t,
            storage,
            g.filling,
            url,
            upcoming(g).made,
        ) is None,
        _ => false,
    }
}

/// What a walk under way will come to.
pub open spec fn outcome(
    t: Tuning,
    storage: Storage,
    f: Filling,
    frames: Seq<FrameModel>,
    trees: Seq<Seq<Twig>>,
) -> Option<Filling>
    decreases frames.len(),
{
    if frames.len() == 0 {
        Some(f)
    } else {
        let rest = trees.last().skip(frames.last().next as int);
        match walked(t, storage, f, frames.last().prefix, rest) {
            Some(g) => outcome(t, storage, g, frames.drop_last(), trees.drop_last()),
            None => None,
        }
    }
}

/// A walk through a listing starts with its first entry.
proof fn lemma_walked_first(
    t: Tuning,
    storage: Storage,
    f: Filling,
    prefix: Seq<char>,
    list: Seq<Twig>,
)
    requires
        list.len() > 0,
    ensures
        walked(t, storage, f, prefix, list) == (match walked_entry(t, storage, f, prefix, list[0]) {
            Some(g) => walked(t, storage, g, prefix, list.skip(1)),
            None => None,
        }),
    decreases list.len(),
{
    let rest = list.drop_last();
    if list.len() == 1 {
        assert(walked(t, storage, f, prefix, rest) == Some(f));
    } else {
        lemma_walked_first(t, storage, f, prefix, rest);
        assert(list.skip(1).drop_last() =~= rest.skip(1));
        assert(list.skip(1).last() == list.last());
        assert(rest[0] == list[0]);
    }
}

/// One step keeps what a walk will come to.
proof fn lemma_goes(t: Tuning, storage: Storage, a: Going, b: Going)
    requires
        shows(a),
        goes(t, storage, a, b),
    ensures
        shows(b),
        outcome(t, storage, a.filling, a.frames, a.trees) == outcome(
            t,
            storage,
            b.filling,
            b.frames,
            b.trees,
        ),
{
    let at = a.frames.last();
    let tree = a.trees.last();
    let n = a.frames.len() - 1;
    assert(at == a.frames[n] && tree == a.trees[n]);
    assert(at.list == names_of(tree));
    if at.next >= at.list.len() {
        assert(tree.skip(at.next as int) =~= seq![]);
        assert(a.trees.take(n) =~= a.trees.drop_last());
        assert forall|i: int| 0 <= i < b.frames.len() implies (#[trigger] b.frames[i]).list
            == names_of(b.trees[i]) && b.frames[i].next <= b.trees[i].len() by {
            assert(b.frames[i] == a.frames[i]);
        }
    } else {
        let after = frames_after(a.frames);
        let rest = tree.skip(at.next as int);
        let e = upcoming(a);
        assert(rest[0] == e);
        assert(rest.skip(1) =~= tree.skip(at.next as int + 1));
        lemma_walked_first(t, storage, a.filling, at.prefix, rest);
        assert(after.last() == FrameModel { next: at.next + 1, ..at });
        assert(after.drop_last() =~= a.frames.drop_last());
        assert(a.trees.take(after.len() as int) =~= a.trees);
        assert forall|i: int| 0 <= i < after.len() implies (#[trigger] after[i]).list == names_of(
            a.trees[i],
        ) && after[i].next <= a.trees[i].len() by {
            if i < n {
                assert(after[i] == a.frames[i]);
            }
        }
        match going_step(t, storage, a) {
            StepModel::List { depth: _, index: _, url } => {
                if let Some(list) = e.below {
                    assert(b.frames.last() == frame_of(url, names_of(list)));
                    assert(b.frames.drop_last() =~= after);
                    assert(b.trees.drop_last() =~= a.trees);
                    assert(list.skip(0) =~= list);
                    assert forall|i: int| 0 <= i < b.frames.len() implies (
                    #[trigger] b.frames[i]).list == names_of(b.trees[i]) && b.frames[i].next
                        <= b.trees[i].len() by {
                        if i < after.len() {
                            assert(b.frames[i] == after[i]);
                        }
                    }
                    lemma_outcome_below(t, storage, a, b, url, list);
                }
            },
            _ => {},
        }
    }
}

/// Entering a directory keeps what a walk will come to.
proof fn lemma_outcome_below(
    t: Tuning,
    storage: Storage,
    a: Going,
    b: Going,
    url: Seq<char>,
    list: Seq<Twig>,
)
    requires
        a.frames.len() > 0,
        a.frames.len() == a.trees.len(),
        a.frames.last().next < a.frames.last().list.len(),
        b.filling == a.filling,
        b.frames == frames_after(a.frames).push(frame_of(url, names_of(list))),
        b.trees == a.trees.push(list),
    ensures
        outcome(t, storage, b.filling, b.frames, b.trees) == (match walked(
            t,
            storage,
            a.filling,
            url,
            list,
        ) {
            Some(g) => match walked(
                t,
                storage,
                g,
                a.frames.last().prefix,
                a.trees.last().skip(a.frames.last().next as int + 1),
            ) {
                Some(h) => outcome(t, storage, h, a.frames.drop_last(), a.trees.drop_last()),
                None => None,
            },
            None => None,
        }),
{
    let after = frames_after(a.frames);
    assert(b.frames.drop_last() =~= after);
    assert(b.trees.drop_last() =~= a.trees);
    assert(list.skip(0) =~= list);
    assert(after.drop_last() =~= a.frames.drop_last());
    assert(after.last() == FrameModel { next: a.frames.last().next + 1, ..a.frames.last() });
    reveal_with_fuel(outcome, 3);
}

/// The steps of a walk, one after the other, come to what the tree as a whole
/// comes to: where all is done, the cache holds what a walk through the whole root
/// fills, and where the walk is given up, so is that one.
pub proof fn law_step_by_step_is_the_whole_walk(
    t: Tuning,
    storage: Storage,
    f: Filling,
    prefix: Seq<char>,
    list: Seq<Twig>,
    run: Seq<Going>,
)
    requires
        run.len() > 0,
        run[0] == setting_out(f, prefix, list),
        forall|i: int| 0 <= i < run.len() - 1 ==> goes(t, storage, #[trigger] run[i], run[i + 1]),
    ensures
        is_done(t, storage, run.last()) ==> walked(t, storage, f, prefix, list) == Some(
            run.last().filling,
        ),
        is_given_up(t, storage, run.last()) ==> walked(t, storage, f, prefix, list) is None,
{
    lemma_run(t, storage, f, prefix, list, run, run.len() - 1);
    lemma_over(t, storage, run.last());
}

/// A walk up to some step.
proof fn lemma_run(
    t: Tuning,
    storage: Storage,
    f: Filling,
    prefix: Seq<char>,
    list: Seq<Twig>,
    run: Seq<Going>,
    n: int,
)
    requires
        0 <= n < run.len(),
        run[0] == setting_out(f, prefix, list),
        forall|i: int| 0 <= i < run.len() - 1 ==> goes(t, storage, #[trigger] run[i], run[i + 1]),
    ensures
        shows(run[n]),
        outcome(t, storage, run[n].filling, run[n].frames, run[n].trees) == walked(
            t,
            storage,
            f,
            prefix,
            list,
        ),
    decreases n,
{
    if n == 0 {
        let g = run[0];
        assert(list.skip(0) =~= list);
        assert(g.frames.drop_last() =~= seq![]);
        match walked(t, storage, f, prefix, list) {
            Some(h) => assert(outcome(t, storage, h, g.frames.drop_last(), g.trees.drop_last())
                == Some(h)),
            None => {},
        }
    } else {
        lemma_run(t, storage, f, prefix, list, run, n - 1);
        assert(goes(t, storage, run[n - 1], run[n - 1 + 1]));
        lemma_goes(t, storage, run[n - 1], run[n]);
    }
}

/// The end of a walk.
proof fn lemma_over(t: Tuning, storage: Storage, g: Going)
    requires
        shows(g),
    ensures
        is_done(t, storage, g) ==> outcome(t, storage, g.filling, g.frames, g.trees) == Some(
            g.filling,
        ),
        is_given_up(t, storage, g) ==> outcome(t, storage, g.filling, g.frames, g.trees) is None,
{
    if is_given_up(t, storage, g) {
        let at = g.frames.last();
        let tree = g.trees.last();
        let n = g.frames.len() - 1;
        assert(at == g.frames[n] && tree == g.trees[n]);
        assert(at.list == names_of(tree));
        let rest = tree.skip(at.next as int);
        assert(rest[0] == upcoming(g));
        lemma_walked_first(t, storage, g.filling, at.prefix, rest);
    }
}

/// Where a walk goes: through a listing from its first entry to its last, then back to
/// the directory above, until it is back out of the root.
pub proof fn law_a_walk_goes_entry_by_entry(
    above: Seq<FrameModel>,
    prefix: Seq<char>,
    list: Seq<Seq<char>>,
    next: nat,
)
    ensures
        frame_of(prefix, list) == (FrameModel { prefix, list, next: 0 }),
        next < list.len() ==> frames_after(above.push(FrameModel { prefix, list, next }))
            == above.push(FrameModel { prefix, list, next: next + 1 }),
        next >= list.len() ==> frames_after(above.push(FrameModel { prefix, list, next })) == above,
        frames_after(seq![]) == Seq::<FrameModel>::empty(),
{
    let at = above.push(FrameModel { prefix, list, next });
    assert(at.drop_last() =~= above);
    assert(frames_after(seq![]) =~= seq![]);
}

/// What a walk asks for next, by what the next entry is: it reads a file that may be
/// kept, says of one that is too large and of one that there is no room for that they
/// are not, lists a directory, and passes by what is hidden and what is
/// neither file nor directory. Behind the last entry of a listing it goes on, and behind the root it is
/// done.
pub proof fn law_what_a_walk_asks_for(
    t: Tuning,
    storage: Storage,
    total: nat,
    above: Seq<FrameModel>,
    prefix: Seq<char>,
    list: Seq<Seq<char>>,
    next: nat,
    kind: Kind,
    size: nat,
)
    requires
        next < list.len(),
    ensures
        ({
            let name = list[next as int];
            let frames = above.push(FrameModel { prefix, list, next });
            let step = step_of(t, storage, total, frames, kind, size);
            let url = prefix + "/"@ + name;
            let depth = above.len() + 1;
            let dotted = name.len() > 0 && name[0] == '.' && name != ".well-known"@;
            &&& dotted ==> step == StepModel::Next
            &&& kind != Kind::Dir && kind != Kind::File ==> step == StepModel::Next
            &&& !dotted && kind == Kind::Dir ==> step == (StepModel::List { depth, index: next, url })
            &&& !dotted && kind == Kind::File && size > t.max_file_size ==> step
                == StepModel::Oversized(url)
            &&& !dotted && kind == Kind::File && size <= t.max_file_size && storage
                == Storage::Memory && total + size > t.max_total_bytes ==> step
                == StepModel::OverBudget(url)
            &&& !dotted && kind == Kind::File && size <= t.max_file_size && (storage
                == Storage::Disk || total + size <= t.max_total_bytes) ==> step == (StepModel::Read {
                depth,
                index: next,
                url,
            })
        }),
        step_of(t, storage, total, seq![], kind, size) == StepModel::Done,
        step_of(
            t,
            storage,
            total,
            above.push(FrameModel { prefix, list, next: list.len() }),
            kind,
            size,
        ) == StepModel::Next,
{
    let frames = above.push(FrameModel { prefix, list, next });
    assert(frames.last() == (FrameModel { prefix, list, next }));
}

} // verus!
