//! What holds of every configuration file.
use vstd::prelude::*;

use crate::config::{
    after_word, at_line, bare_line, block_closed, block_opened, bool_value, comma_joined, comment_start,
    config_of, count_value, deadline_value, default_headers, default_tuning, file_resolved,
    header_value, host_names, line_read, lines_mean, lines_read, nothing_read, overridden,
    ranged_value, rule_listed, secs_value, security_block, server_only, server_setting, shared_set,
    site_only, site_resolved, site_setting, sites_resolved, size_unit, size_value, ConfigModel,
    HeaderModel, PendingModel, Reading, Shared, SiteModel, Storage, Tuning, MAX_DEADLINE_SECS,
};
use crate::redirects::{
    is_sound, law_adding_rules_keeps_soundness, law_matching_order_keeps_soundness, longest_first,
    no_rules, rule_added, rule_refused, RuleSet,
};
use crate::text::{
    all_white, control_free, cut, dec_text, is_control, is_white, law_a_back_cut_is_at_the_last,
    law_a_cut_is_at_the_first, law_numbers_are_decimal, law_only_digits_are_numbers,
    law_splitting_undoes_joining, law_white_space_around_a_text_does_not_count, lemma_first_run_from,
    lines_of, lower, lowered, none_holds, number, parts, trimmed, trimmed_start, with_between,
};

verus! {

/// The key of a line that sets one.
spec fn key_of(line: Seq<char>) -> Seq<char> {
    match cut(line, '=') {
        Some((k, _)) => trimmed(k),
        None => seq![],
    }
}

/// The value on a line that sets a key.
spec fn value_of(line: Seq<char>) -> Seq<char> {
    match cut(line, '=') {
        Some((_, v)) => trimmed(v),
        None => seq![],
    }
}

// --------------------------------------------------------------------- limits

/// Whether the compressors take these levels, and the headers can be sent.
pub open spec fn within_limits(s: Shared) -> bool {
    &&& s.tuning.gzip_level <= 9
    &&& s.tuning.brotli_quality <= 11
    &&& control_free(s.headers.csp)
}

/// Whether a block can be part of a file that was read so far.
pub open spec fn sound_block(p: PendingModel) -> bool {
    p.hosts.len() > 0 && is_sound(p.redirects)
}

/// Whether a file can have been read up to here.
pub open spec fn sound_reading(st: Reading) -> bool {
    &&& within_limits(st.shared)
    &&& st.max_response_secs <= MAX_DEADLINE_SECS
    &&& forall|i: int| 0 <= i < st.pending.len() ==> sound_block(#[trigger] st.pending[i])
    &&& st.cur matches Some(p) ==> sound_block(p)
}

/// Whether a site can be served.
pub open spec fn sound_site(s: SiteModel) -> bool {
    &&& s.hosts.len() > 0
    &&& s.root is Some || s.redirects != no_rules()
    &&& is_sound(s.redirects)
    &&& within_limits(Shared { tuning: s.tuning, headers: s.headers })
}

/// Whether a configuration can be served.
pub open spec fn sound_config(c: ConfigModel) -> bool {
    &&& c.host.len() > 0 && c.port.len() > 0
    &&& c.sites.len() > 0
    &&& forall|i: int| 0 <= i < c.sites.len() ==> sound_site(#[trigger] c.sites[i])
    &&& forall|i: int, j: int|
        0 <= i < c.sites.len() && 0 <= j < c.sites.len() ==> (
        #[trigger] c.sites[i]).tuning.max_total_bytes == (
        #[trigger] c.sites[j]).tuning.max_total_bytes
    &&& c.max_response_secs <= MAX_DEADLINE_SECS
    &&& control_free(c.headers.csp)
    &&& c.storage == Storage::Disk ==> c.disk_cache is Some && c.disk_cache->0.len() > 0
}

/// A setting keeps the levels in range, and none but the server's own line sets
/// the total.
proof fn lemma_set_within_limits(s: Shared, k: Seq<char>, v: Seq<char>)
    requires
        within_limits(s),
    ensures
        shared_set(s, k, v) matches Ok(Some(now)) ==> within_limits(now)
            && now.tuning.max_total_bytes == s.tuning.max_total_bytes,
{
}

/// A line keeps what was read sound.
proof fn lemma_line_keeps_soundness(st: Reading, n: nat, raw: Seq<char>)
    requires
        sound_reading(st),
    ensures
        line_read(st, n, raw) matches Ok(now) ==> sound_reading(now),
{
    let line = bare_line(raw);
    if line.len() == 0 {
    } else if line == "}"@ {
        if st.cur is Some {
            law_matching_order_keeps_soundness(st.cur->0.redirects);
        }
    } else if after_word(line, "site "@, "site\t"@) is Some {
        assert(is_sound(no_rules()));
    } else if after_word(line, "redirect "@, "redirect\t"@) is Some {
        let rest = trimmed(after_word(line, "redirect "@, "redirect\t"@)->0);
        if st.cur is Some {
            let i = crate::text::first_run(rest, "->"@)->0;
            law_adding_rules_keeps_soundness(
                st.cur->0.redirects,
                trimmed(rest.take(i)),
                trimmed(rest.skip(i + 2)),
            );
        }
    } else if cut(line, '=') is Some {
        let k = key_of(line);
        let v = value_of(line);
        lemma_set_within_limits(st.shared, k, v);
    }
}

/// Lines keep what was read sound.
proof fn lemma_lines_keep_soundness(text: Seq<Seq<char>>, count: nat)
    ensures
        lines_read(text, count) matches Ok(st) ==> sound_reading(st),
    decreases count,
{
    if count > 0 {
        lemma_lines_keep_soundness(text, (count - 1) as nat);
        if let Ok(st) = lines_read(text, (count - 1) as nat) {
            lemma_line_keeps_soundness(st, count, text[count - 1]);
        }
    }
}

/// Overrides keep the levels in range and leave the total alone.
proof fn lemma_overrides_within_limits(
    base: Shared,
    overrides: Seq<(nat, Seq<char>, Seq<char>)>,
    count: nat,
)
    requires
        within_limits(base),
    ensures
        overridden(base, overrides, count) matches Ok(s) ==> within_limits(s)
            && s.tuning.max_total_bytes == base.tuning.max_total_bytes,
    decreases count,
{
    if count > 0 {
        lemma_overrides_within_limits(base, overrides, (count - 1) as nat);
        if let Ok(s) = overridden(base, overrides, (count - 1) as nat) {
            lemma_set_within_limits(s, overrides[count - 1].1, overrides[count - 1].2);
        }
    }
}

/// Sound blocks resolve to sound sites.
proof fn lemma_sites_are_sound(base: Shared, pending: Seq<PendingModel>, count: nat)
    requires
        count <= pending.len(),
        within_limits(base),
        forall|i: int| 0 <= i < pending.len() ==> sound_block(#[trigger] pending[i]),
    ensures
        sites_resolved(base, pending, count) matches Ok(sites) ==> sites.len() == count && forall|
            i: int,
        |
            0 <= i < sites.len() ==> sound_site(#[trigger] sites[i])
                && sites[i].tuning.max_total_bytes == base.tuning.max_total_bytes,
    decreases count,
{
    if count > 0 {
        lemma_sites_are_sound(base, pending, (count - 1) as nat);
        let p = pending[count - 1];
        assert(sound_block(p));
        lemma_overrides_within_limits(base, p.overrides, p.overrides.len());
    }
}

/// A configuration that parses can be served: it listens somewhere, it has a
/// site, every site has a name, something to serve and a sound rule set, the
/// levels and the deadline are in range, no header value can break its line, disk
/// storage has a place to go, and one memory budget holds for all sites.
pub proof fn law_parsed_configurations_are_sound(text: Seq<char>)
    ensures
        config_of(text) matches Ok(c) ==> sound_config(c),
{
    let listed = lines_of(text);
    assert(within_limits(nothing_read().shared)) by {
        reveal_strlit("");
    }
    lemma_lines_keep_soundness(listed, listed.len());
    if let Ok(st) = lines_read(listed, listed.len()) {
        lemma_sites_are_sound(st.shared, st.pending, st.pending.len());
    }
}

// ---------------------------------------------------------------- inheritance

/// Whether two lots of settings agree on a key.
pub open spec fn agree_on(k: Seq<char>, a: Shared, b: Shared) -> bool {
    if k == "compression"@ {
        a.tuning.compression == b.tuning.compression
    } else if k == "brotli_quality"@ {
        a.tuning.brotli_quality == b.tuning.brotli_quality
    } else if k == "gzip_level"@ {
        a.tuning.gzip_level == b.tuning.gzip_level
    } else if k == "min_compress_bytes"@ {
        a.tuning.min_compress_bytes == b.tuning.min_compress_bytes
    } else if k == "max_brotli_bytes"@ {
        a.tuning.max_brotli_bytes == b.tuning.max_brotli_bytes
    } else if k == "max_gzip_bytes"@ {
        a.tuning.max_gzip_bytes == b.tuning.max_gzip_bytes
    } else if k == "max_file_size"@ {
        a.tuning.max_file_size == b.tuning.max_file_size
    } else if k == "cache_max_age"@ {
        a.tuning.cache_max_age == b.tuning.cache_max_age
    } else if k == "immutable_max_age"@ {
        a.tuning.immutable_max_age == b.tuning.immutable_max_age
    } else if k == "hsts_max_age"@ {
        a.headers.hsts_max_age == b.headers.hsts_max_age
    } else if k == "hsts_include_subdomains"@ {
        a.headers.hsts_include_subdomains == b.headers.hsts_include_subdomains
    } else if k == "hsts_preload"@ {
        a.headers.hsts_preload == b.headers.hsts_preload
    } else if k == "csp"@ {
        a.headers.csp == b.headers.csp
    } else {
        true
    }
}

/// Setting one key leaves the others as they were.
proof fn lemma_set_leaves_others(s: Shared, k: Seq<char>, v: Seq<char>, other: Seq<char>)
    requires
        k != other,
    ensures
        shared_set(s, k, v) matches Ok(Some(now)) ==> agree_on(other, s, now),
{
}

/// What setting a key gives it does not depend on what was there, nor does
/// whether the value is taken.
proof fn lemma_set_is_absolute(s: Shared, t: Shared, k: Seq<char>, v: Seq<char>)
    ensures
        match (shared_set(s, k, v), shared_set(t, k, v)) {
            (Ok(Some(a)), Ok(Some(b))) => agree_on(k, a, b),
            (Ok(None), Ok(None)) => true,
            (Err(a), Err(b)) => a == b,
            _ => false,
        },
{
}

/// A key that a site's overrides do not name comes from the server.
pub proof fn law_other_keys_are_inherited(
    base: Shared,
    overrides: Seq<(nat, Seq<char>, Seq<char>)>,
    count: nat,
    key: Seq<char>,
)
    requires
        count <= overrides.len(),
        forall|i: int| 0 <= i < count ==> (#[trigger] overrides[i]).1 != key,
    ensures
        overridden(base, overrides, count) matches Ok(s) ==> agree_on(key, base, s),
    decreases count,
{
    if count > 0 {
        law_other_keys_are_inherited(base, overrides, (count - 1) as nat, key);
        let o = overrides[count - 1];
        if let Ok(s) = overridden(base, overrides, (count - 1) as nat) {
            lemma_set_leaves_others(s, o.1, o.2, key);
        }
    }
}

/// The last override of a key decides it, whatever the server's value is.
pub proof fn law_the_last_override_decides(
    base: Shared,
    overrides: Seq<(nat, Seq<char>, Seq<char>)>,
    count: nat,
    i: int,
)
    requires
        0 <= i < count <= overrides.len(),
        forall|j: int| i < j < count ==> (#[trigger] overrides[j]).1 != overrides[i].1,
    ensures
        overridden(base, overrides, count) matches Ok(s) ==> match shared_set(
            base,
            overrides[i].1,
            overrides[i].2,
        ) {
            Ok(Some(set)) => agree_on(overrides[i].1, set, s),
            Ok(None) => true,
            Err(_) => false,
        },
    decreases count,
{
    let o = overrides[count - 1];
    if let Ok(s) = overridden(base, overrides, (count - 1) as nat) {
        if i == count - 1 {
            lemma_set_is_absolute(base, s, o.1, o.2);
        } else {
            law_the_last_override_decides(base, overrides, (count - 1) as nat, i);
            lemma_set_leaves_others(s, o.1, o.2, overrides[i].1);
        }
    }
}

// --------------------------------------------------------------------- blocks

/// The blocks of one file with the server settings of another.
pub open spec fn with_server(st: Reading, server: Reading) -> Reading {
    Reading { pending: st.pending, cur: st.cur, ..server }
}

/// Whether a line opens a block.
pub open spec fn opens(raw: Seq<char>) -> bool {
    &&& bare_line(raw).len() > 0
    &&& bare_line(raw) != "}"@
    &&& after_word(bare_line(raw), "site "@, "site\t"@) is Some
}

/// Whether a line closes a block.
pub open spec fn closes(raw: Seq<char>) -> bool {
    bare_line(raw).len() > 0 && bare_line(raw) == "}"@
}

/// Whether a line sets a key.
pub open spec fn sets(raw: Seq<char>) -> bool {
    let line = bare_line(raw);
    &&& line.len() > 0
    &&& line != "}"@
    &&& after_word(line, "site "@, "site\t"@) is None
    &&& after_word(line, "redirect "@, "redirect\t"@) is None
    &&& cut(line, '=') is Some
}

/// Whether lines are one whole block.
pub open spec fn is_block(text: Seq<Seq<char>>) -> bool {
    &&& text.len() >= 2
    &&& opens(text[0])
    &&& closes(text.last())
    &&& forall|i: int| 0 < i < text.len() - 1 ==> !closes(#[trigger] text[i])
}

/// What a block says concerns its own site: its lines leave the server's settings
/// and the other sites as they are, and mean the same whatever those settings
/// are.
pub proof fn law_block_lines_are_local(st: Reading, server: Reading, n: nat, raw: Seq<char>)
    requires
        st.cur is Some || opens(raw),
    ensures
        match line_read(st, n, raw) {
            Ok(now) => {
                &&& now == with_server(now, st)
                &&& st.pending.is_prefix_of(now.pending)
                &&& line_read(with_server(st, server), n, raw) == Ok::<Reading, Seq<char>>(
                    with_server(now, server),
                )
            },
            Err(e) => line_read(with_server(st, server), n, raw) == Err::<Reading, Seq<char>>(e),
        },
{
    let line = bare_line(raw);
    if cut(line, '=') is Some {
        let k = key_of(line);
        let v = value_of(line);
        lemma_set_is_absolute(st.shared, server.shared, k, v);
    }
}

/// What is known after more lines, of which the first has the number after `n`.
pub open spec fn read_on(st: Result<Reading, Seq<char>>, n: nat, text: Seq<Seq<char>>) -> Result<
    Reading,
    Seq<char>,
>
    decreases text.len(),
{
    if text.len() == 0 {
        st
    } else {
        match read_on(st, n, text.drop_last()) {
            Err(e) => Err(e),
            Ok(now) => line_read(now, n + text.len(), text.last()),
        }
    }
}

/// Reading on from nothing is reading.
proof fn lemma_read_on_from_nothing(text: Seq<Seq<char>>, count: nat)
    requires
        count <= text.len(),
    ensures
        lines_read(text, count) == read_on(Ok(nothing_read()), 0, text.take(count as int)),
    decreases count,
{
    if count > 0 {
        lemma_read_on_from_nothing(text, (count - 1) as nat);
        assert(text.take(count as int).drop_last() == text.take(count - 1));
    }
}

/// Reading two stretches is reading one after the other.
proof fn lemma_read_on_splits(
    st: Result<Reading, Seq<char>>,
    n: nat,
    a: Seq<Seq<char>>,
    b: Seq<Seq<char>>,
)
    ensures
        read_on(st, n, a + b) == read_on(read_on(st, n, a), n + a.len(), b),
    decreases b.len(),
{
    if b.len() == 0 {
        assert(a + b == a);
    } else {
        lemma_read_on_splits(st, n, a, b.drop_last());
        assert((a + b).drop_last() == a + b.drop_last());
    }
}

/// What failed stays failed.
proof fn lemma_read_on_fails(e: Seq<char>, n: nat, text: Seq<Seq<char>>)
    ensures
        read_on(Err(e), n, text) == Err::<Reading, Seq<char>>(e),
    decreases text.len(),
{
    if text.len() > 0 {
        lemma_read_on_fails(e, n, text.drop_last());
    }
}

// --------------------------------------------------------------- line numbers

/// A block without its line numbers.
pub open spec fn plain_block(p: PendingModel) -> PendingModel {
    PendingModel {
        line: 0,
        overrides: Seq::new(
            p.overrides.len(),
            |i: int| (0nat, p.overrides[i].1, p.overrides[i].2),
        ),
        ..p
    }
}

/// What was read, without the line numbers.
pub open spec fn plain(st: Reading) -> Reading {
    Reading {
        pending: Seq::new(st.pending.len(), |i: int| plain_block(st.pending[i])),
        cur: match st.cur {
            Some(p) => Some(plain_block(p)),
            None => None,
        },
        ..st
    }
}

/// Whether two readings differ in line numbers at most.
pub open spec fn like(a: Result<Reading, Seq<char>>, b: Result<Reading, Seq<char>>) -> bool {
    match (a, b) {
        (Ok(x), Ok(y)) => plain(x) == plain(y),
        (Err(_), Err(_)) => true,
        _ => false,
    }
}

/// The parts of two readings that differ in line numbers at most.
proof fn lemma_plain_parts(x: Reading, y: Reading)
    requires
        plain(x) == plain(y),
    ensures
        x.pending.len() == y.pending.len(),
        forall|i: int|
            0 <= i < x.pending.len() ==> plain_block(#[trigger] x.pending[i]) == plain_block(
                y.pending[i],
            ),
        x.cur is Some == y.cur is Some,
        x.cur is Some ==> plain_block(x.cur->0) == plain_block(y.cur->0),
        x.shared == y.shared,
        with_server(x, y) == x,
{
    assert(plain(x).pending.len() == x.pending.len());
    assert(plain(y).pending.len() == y.pending.len());
    assert forall|i: int| 0 <= i < x.pending.len() implies plain_block(#[trigger] x.pending[i])
        == plain_block(y.pending[i]) by {
        assert(plain(x).pending[i] == plain_block(x.pending[i]));
        assert(plain(y).pending[i] == plain_block(y.pending[i]));
    }
}

/// Readings whose parts differ in line numbers at most do so as a whole.
proof fn lemma_plain_whole(x: Reading, y: Reading)
    requires
        x.pending.len() == y.pending.len(),
        forall|i: int|
            0 <= i < x.pending.len() ==> plain_block(#[trigger] x.pending[i]) == plain_block(
                y.pending[i],
            ),
        x.cur is Some == y.cur is Some,
        x.cur is Some ==> plain_block(x.cur->0) == plain_block(y.cur->0),
        with_server(x, y) == x,
    ensures
        plain(x) == plain(y),
{
    assert(plain(x).pending =~= plain(y).pending);
    assert(plain(x) =~= plain(y));
}

/// Closing blocks that are alike gives readings that are.
proof fn lemma_close_alike(x: Reading, y: Reading, n: nat, m: nat)
    requires
        plain(x) == plain(y),
    ensures
        like(block_closed(x, n), block_closed(y, m)),
{
    lemma_plain_parts(x, y);
    if x.cur is Some {
        let a = block_closed(x, n)->Ok_0;
        let b = block_closed(y, m)->Ok_0;
        let p = x.cur->0;
        let q = y.cur->0;
        assert(plain_block(a.pending.last()).overrides == plain_block(p).overrides);
        assert(plain_block(b.pending.last()).overrides == plain_block(q).overrides);
        assert(p.redirects == plain_block(p).redirects);
        assert(q.redirects == plain_block(q).redirects);
        assert(p.hosts == plain_block(p).hosts && q.hosts == plain_block(q).hosts);
        assert(p.root == plain_block(p).root && q.root == plain_block(q).root);
        assert(p.cert == plain_block(p).cert && q.cert == plain_block(q).cert);
        assert(p.key == plain_block(p).key && q.key == plain_block(q).key);
        assert(p.force_ssl == plain_block(p).force_ssl && q.force_ssl == plain_block(q).force_ssl);
        assert(p.canonical_urls == plain_block(p).canonical_urls && q.canonical_urls
            == plain_block(q).canonical_urls);
        assert(plain_block(a.pending.last()) == plain_block(b.pending.last()));
        assert forall|i: int| 0 <= i < a.pending.len() implies plain_block(
            #[trigger] a.pending[i],
        ) == plain_block(b.pending[i]) by {
            if i < x.pending.len() {
                assert(a.pending[i] == x.pending[i] && b.pending[i] == y.pending[i]);
            }
        }
        lemma_plain_whole(a, b);
    }
}

/// A setting inside blocks that are alike gives readings that are.
proof fn lemma_site_setting_alike(
    x: Reading,
    y: Reading,
    n: nat,
    m: nat,
    k: Seq<char>,
    v: Seq<char>,
)
    requires
        plain(x) == plain(y),
        x.cur is Some,
        y.cur is Some,
    ensures
        like(site_setting(x, x.cur->0, n, k, v), site_setting(y, y.cur->0, m, k, v)),
{
    lemma_plain_parts(x, y);
    let p = x.cur->0;
    let q = y.cur->0;
    let a = site_setting(x, p, n, k, v);
    let b = site_setting(y, q, m, k, v);
    assert(x.shared == y.shared);
    if a is Ok && b is Ok {
        let c = a->Ok_0.cur->0;
        let d = b->Ok_0.cur->0;
        assert(plain_block(p).overrides.len() == plain_block(q).overrides.len());
        assert(p.redirects == plain_block(p).redirects);
        assert(q.redirects == plain_block(q).redirects);
        assert forall|i: int| 0 <= i < c.overrides.len() implies (#[trigger] plain_block(
            c,
        ).overrides[i]) == plain_block(d).overrides[i] by {
            if i < p.overrides.len() {
                assert(plain_block(p).overrides[i] == plain_block(q).overrides[i]);
                assert(c.overrides[i] == p.overrides[i]);
                assert(d.overrides[i] == q.overrides[i]);
            }
        }
        assert(plain_block(c).overrides =~= plain_block(d).overrides);
        assert(p.hosts == plain_block(p).hosts && q.hosts == plain_block(q).hosts);
        assert(p.root == plain_block(p).root && q.root == plain_block(q).root);
        assert(p.cert == plain_block(p).cert && q.cert == plain_block(q).cert);
        assert(p.key == plain_block(p).key && q.key == plain_block(q).key);
        assert(p.force_ssl == plain_block(p).force_ssl && q.force_ssl == plain_block(q).force_ssl);
        assert(p.canonical_urls == plain_block(p).canonical_urls && q.canonical_urls
            == plain_block(q).canonical_urls);
        assert(plain_block(c) =~= plain_block(d));
        lemma_plain_whole(a->Ok_0, b->Ok_0);
    }
}

/// A rule inside blocks that are alike gives readings that are.
proof fn lemma_rule_alike(x: Reading, y: Reading, n: nat, m: nat, rest: Seq<char>)
    requires
        plain(x) == plain(y),
    ensures
        like(rule_listed(x, n, rest), rule_listed(y, m, rest)),
{
    lemma_plain_parts(x, y);
    if x.cur is Some {
        let p = x.cur->0;
        let q = y.cur->0;
        assert(p.redirects == plain_block(p).redirects);
        assert(q.redirects == plain_block(q).redirects);
        let a = rule_listed(x, n, rest);
        let b = rule_listed(y, m, rest);
        if a is Ok && b is Ok {
            let c = a->Ok_0.cur->0;
            let d = b->Ok_0.cur->0;
            assert(plain_block(c).overrides == plain_block(p).overrides);
            assert(plain_block(d).overrides == plain_block(q).overrides);
            assert(p.hosts == plain_block(p).hosts && q.hosts == plain_block(q).hosts);
            assert(p.root == plain_block(p).root && q.root == plain_block(q).root);
            assert(p.cert == plain_block(p).cert && q.cert == plain_block(q).cert);
            assert(p.key == plain_block(p).key && q.key == plain_block(q).key);
            assert(p.force_ssl == plain_block(p).force_ssl && q.force_ssl == plain_block(
                q,
            ).force_ssl);
            assert(p.canonical_urls == plain_block(p).canonical_urls && q.canonical_urls
                == plain_block(q).canonical_urls);
            assert(plain_block(c) =~= plain_block(d));
            lemma_plain_whole(a->Ok_0, b->Ok_0);
        }
    }
}

/// A setting outside every block gives readings that are alike.
proof fn lemma_server_setting_alike(
    x: Reading,
    y: Reading,
    n: nat,
    m: nat,
    k: Seq<char>,
    v: Seq<char>,
)
    requires
        plain(x) == plain(y),
        x.cur is None,
        y.cur is None,
    ensures
        like(server_setting(x, n, k, v), server_setting(y, m, k, v)),
{
    lemma_plain_parts(x, y);
    let a = server_setting(x, n, k, v);
    let b = server_setting(y, m, k, v);
    if a is Ok && b is Ok {
        lemma_plain_whole(a->Ok_0, b->Ok_0);
    }
}

/// A line means the same whatever its number is.
proof fn lemma_line_alike(x: Reading, y: Reading, n: nat, m: nat, raw: Seq<char>)
    requires
        plain(x) == plain(y),
    ensures
        like(line_read(x, n, raw), line_read(y, m, raw)),
{
    lemma_plain_parts(x, y);
    let line = bare_line(raw);
    if line.len() == 0 {
    } else if line == "}"@ {
        lemma_close_alike(x, y, n, m);
    } else if after_word(line, "site "@, "site\t"@) is Some {
        let rest = trimmed(after_word(line, "site "@, "site\t"@)->0);
        let a = block_opened(x, n, rest);
        let b = block_opened(y, m, rest);
        if a is Ok && b is Ok {
            assert(plain_block(a->Ok_0.cur->0) =~= plain_block(b->Ok_0.cur->0));
            lemma_plain_whole(a->Ok_0, b->Ok_0);
        }
    } else if after_word(line, "redirect "@, "redirect\t"@) is Some {
        lemma_rule_alike(
            x,
            y,
            n,
            m,
            trimmed(after_word(line, "redirect "@, "redirect\t"@)->0),
        );
    } else if cut(line, '=') is Some {
        let k = key_of(line);
        let v = value_of(line);
        if x.cur is Some {
            lemma_site_setting_alike(x, y, n, m, k, v);
        } else {
            lemma_server_setting_alike(x, y, n, m, k, v);
        }
    }
}

/// Lines mean the same whatever their numbers are.
proof fn lemma_lines_alike(
    x: Result<Reading, Seq<char>>,
    y: Result<Reading, Seq<char>>,
    n: nat,
    m: nat,
    text: Seq<Seq<char>>,
)
    requires
        like(x, y),
    ensures
        like(read_on(x, n, text), read_on(y, m, text)),
    decreases text.len(),
{
    if text.len() > 0 {
        lemma_lines_alike(x, y, n, m, text.drop_last());
        let a = read_on(x, n, text.drop_last());
        let b = read_on(y, m, text.drop_last());
        if a is Ok && b is Ok {
            lemma_line_alike(a->Ok_0, b->Ok_0, n + text.len(), m + text.len(), text.last());
        }
    }
}

/// Overrides that are alike resolve alike.
proof fn lemma_overrides_alike(base: Shared, p: PendingModel, q: PendingModel, count: nat)
    requires
        plain_block(p) == plain_block(q),
        count <= p.overrides.len(),
    ensures
        match (overridden(base, p.overrides, count), overridden(base, q.overrides, count)) {
            (Ok(a), Ok(b)) => a == b,
            (Err(_), Err(_)) => true,
            _ => false,
        },
        p.overrides.len() == q.overrides.len(),
    decreases count,
{
    assert(plain_block(p).overrides.len() == p.overrides.len());
    assert(plain_block(q).overrides.len() == q.overrides.len());
    if count > 0 {
        lemma_overrides_alike(base, p, q, (count - 1) as nat);
        assert(plain_block(p).overrides[count - 1] == plain_block(q).overrides[count - 1]);
    }
}

/// Blocks that are alike resolve to the same sites.
proof fn lemma_sites_alike(base: Shared, a: Seq<PendingModel>, b: Seq<PendingModel>, count: nat)
    requires
        count <= a.len(),
        a.len() == b.len(),
        forall|i: int| 0 <= i < a.len() ==> plain_block(#[trigger] a[i]) == plain_block(b[i]),
    ensures
        match (sites_resolved(base, a, count), sites_resolved(base, b, count)) {
            (Ok(x), Ok(y)) => x == y,
            (Err(_), Err(_)) => true,
            _ => false,
        },
    decreases count,
{
    if count > 0 {
        lemma_sites_alike(base, a, b, (count - 1) as nat);
        let p = a[count - 1];
        let q = b[count - 1];
        lemma_overrides_alike(base, p, q, p.overrides.len());
        assert(p.redirects == plain_block(p).redirects && q.redirects == plain_block(q).redirects);
        assert(p.hosts == plain_block(p).hosts && q.hosts == plain_block(q).hosts);
        assert(p.root == plain_block(p).root && q.root == plain_block(q).root);
        assert(p.cert == plain_block(p).cert && q.cert == plain_block(q).cert);
        assert(p.key == plain_block(p).key && q.key == plain_block(q).key);
        assert(p.force_ssl == plain_block(p).force_ssl && q.force_ssl == plain_block(q).force_ssl);
        assert(p.canonical_urls == plain_block(p).canonical_urls && q.canonical_urls
            == plain_block(q).canonical_urls);
    }
}

// ---------------------------------------------------------------------- order

/// The lines of a block read the same whatever the server's settings are.
proof fn lemma_block_ignores_server(
    st: Reading,
    server: Reading,
    n: nat,
    block: Seq<Seq<char>>,
    count: nat,
)
    requires
        is_block(block),
        count <= block.len(),
        st.cur is None,
    ensures
        match read_on(Ok(st), n, block.take(count as int)) {
            Ok(now) => {
                &&& now == with_server(now, st)
                &&& now.cur is Some == (0 < count < block.len())
                &&& read_on(Ok(with_server(st, server)), n, block.take(count as int)) == Ok::<
                    Reading,
                    Seq<char>,
                >(with_server(now, server))
            },
            Err(_) => read_on(Ok(with_server(st, server)), n, block.take(count as int)) is Err,
        },
    decreases count,
{
    if count > 0 {
        lemma_block_ignores_server(st, server, n, block, (count - 1) as nat);
        let text = block.take(count as int);
        assert(text.drop_last() == block.take(count - 1));
        assert(text.last() == block[count - 1]);
        if let Ok(now) = read_on(Ok(st), n, text.drop_last()) {
            if count == 1 {
                assert(opens(block[0]));
            } else if count < block.len() {
                assert(!closes(block[count - 1]));
            } else {
                assert(closes(block[count - 1]));
            }
            law_block_lines_are_local(now, server, n + text.len(), text.last());
        }
    }
}

/// A setting outside every block reads the same whatever the blocks are.
proof fn lemma_setting_ignores_blocks(
    st: Reading,
    blocks: Reading,
    n: nat,
    raw: Seq<char>,
)
    requires
        sets(raw),
        st.cur is None,
        blocks.cur is None,
    ensures
        match line_read(st, n, raw) {
            Ok(now) => now == with_server(st, now) && line_read(with_server(blocks, st), n, raw)
                == Ok::<Reading, Seq<char>>(with_server(blocks, now)),
            Err(e) => line_read(with_server(blocks, st), n, raw) == Err::<Reading, Seq<char>>(e),
        },
{
}

/// A block cannot open inside another.
proof fn lemma_no_nesting(st: Reading, n: nat, block: Seq<Seq<char>>)
    requires
        is_block(block),
        st.cur is Some,
    ensures
        read_on(Ok(st), n, block) is Err,
{
    let first = block.take(1);
    assert(block == first + block.skip(1));
    lemma_read_on_splits(Ok(st), n, first, block.skip(1));
    assert(first.last() == block[0]);
    assert(read_on(Ok(st), n, first.drop_last()) == Ok::<Reading, Seq<char>>(st));
    assert(opens(block[0]));
    let failed = read_on(Ok(st), n, first);
    assert(failed is Err);
    lemma_read_on_fails(failed->Err_0, n + 1, block.skip(1));
}

/// A setting stays inside the block that it stands in, or outside every one.
proof fn lemma_setting_stays(st: Reading, n: nat, raw: Seq<char>)
    requires
        sets(raw),
    ensures
        line_read(st, n, raw) matches Ok(now) ==> now.cur is Some == st.cur is Some,
{
}

/// Reading one line.
proof fn lemma_read_one(st: Result<Reading, Seq<char>>, n: nat, raw: Seq<char>)
    ensures
        read_on(st, n, seq![raw]) == match st {
            Ok(now) => line_read(now, n + 1, raw),
            Err(e) => Err(e),
        },
{
    assert(seq![raw].drop_last() == Seq::<Seq<char>>::empty());
    assert(seq![raw].last() == raw);
    assert(read_on(st, n, seq![raw].drop_last()) == st);
}

/// A setting outside every block and a block may change places.
proof fn lemma_outer_setting_passes_block(
    st: Reading,
    n: nat,
    setting: Seq<char>,
    block: Seq<Seq<char>>,
)
    requires
        sets(setting),
        is_block(block),
        st.cur is None,
    ensures
        like(
            read_on(line_read(st, n + 1, setting), n + 1, block),
            match read_on(Ok(st), n, block) {
                Ok(b) => line_read(b, n + block.len() + 1, setting),
                Err(e) => Err(e),
            },
        ),
{
    let len = block.len();
    let mid = line_read(st, n + 1, setting);
    let late = line_read(st, n + len + 1, setting);
    let early = read_on(Ok(st), n, block);
    let after = read_on(Ok(st), n + 1, block);
    assert(block.take(len as int) == block);
    lemma_setting_ignores_blocks(st, st, n + 1, setting);
    lemma_setting_ignores_blocks(st, st, n + len + 1, setting);
    lemma_line_alike(st, st, n + 1, n + len + 1, setting);
    lemma_lines_alike(Ok(st), Ok(st), n, n + 1, block);
    lemma_block_ignores_server(st, st, n, block, len);
    if early is Ok {
        lemma_setting_ignores_blocks(st, early->Ok_0, n + len + 1, setting);
        assert(with_server(early->Ok_0, st) == early->Ok_0);
    }
    if mid is Ok {
        let now = mid->Ok_0;
        lemma_plain_parts(now, late->Ok_0);
        assert(late->Ok_0 == now);
        lemma_block_ignores_server(st, now, n + 1, block, len);
        assert(with_server(st, now) == now);
        if early is Ok {
            let b = early->Ok_0;
            let c = after->Ok_0;
            lemma_plain_parts(b, c);
            lemma_plain_whole(with_server(c, now), with_server(b, now));
        }
    } else {
        lemma_read_on_fails(mid->Err_0, n + 1, block);
    }
}

/// A setting and a block may change places.
proof fn lemma_setting_passes_block(st: Reading, n: nat, setting: Seq<char>, block: Seq<Seq<char>>)
    requires
        sets(setting),
        is_block(block),
    ensures
        like(
            read_on(Ok(st), n, seq![setting] + block),
            read_on(Ok(st), n, block + seq![setting]),
        ),
{
    let one = seq![setting];
    let mid = line_read(st, n + 1, setting);
    lemma_read_on_splits(Ok(st), n, one, block);
    lemma_read_on_splits(Ok(st), n, block, one);
    lemma_read_one(Ok(st), n, setting);
    lemma_read_one(read_on(Ok(st), n, block), n + block.len(), setting);
    if st.cur is None {
        lemma_outer_setting_passes_block(st, n, setting, block);
    } else {
        lemma_no_nesting(st, n, block);
        lemma_setting_stays(st, n + 1, setting);
        if mid is Ok {
            lemma_no_nesting(mid->Ok_0, n + 1, block);
        } else {
            lemma_read_on_fails(mid->Err_0, n + 1, block);
        }
    }
}

/// The file is order-independent: a setting of the server may stand above a block
/// or below it. Either both files parse, to the same configuration, or neither
/// does.
pub proof fn law_settings_may_stand_below_blocks(
    above: Seq<Seq<char>>,
    setting: Seq<char>,
    block: Seq<Seq<char>>,
    below: Seq<Seq<char>>,
)
    requires
        sets(setting),
        is_block(block),
    ensures
        match (
            lines_mean(above + (seq![setting] + block) + below),
            lines_mean(above + (block + seq![setting]) + below),
        ) {
            (Ok(x), Ok(y)) => x == y,
            (Err(_), Err(_)) => true,
            _ => false,
        },
{
    let one = seq![setting] + block;
    let two = block + seq![setting];
    let x = above + one + below;
    let y = above + two + below;
    let start = Ok::<Reading, Seq<char>>(nothing_read());
    assert(x.take(x.len() as int) == x);
    assert(y.take(y.len() as int) == y);
    lemma_read_on_from_nothing(x, x.len());
    lemma_read_on_from_nothing(y, y.len());
    lemma_read_on_splits(start, 0, above + one, below);
    lemma_read_on_splits(start, 0, above + two, below);
    lemma_read_on_splits(start, 0, above, one);
    lemma_read_on_splits(start, 0, above, two);
    let top = read_on(start, 0, above);
    if let Ok(st) = top {
        lemma_setting_passes_block(st, above.len(), setting, block);
    } else {
        lemma_read_on_fails(top->Err_0, above.len(), one);
        lemma_read_on_fails(top->Err_0, above.len(), two);
    }
    let a = read_on(top, above.len(), one);
    let b = read_on(top, above.len(), two);
    assert(like(a, b));
    lemma_lines_alike(a, b, (above + one).len(), (above + two).len(), below);
    let p = lines_read(x, x.len());
    let q = lines_read(y, y.len());
    if p is Ok && q is Ok {
        lemma_plain_parts(p->Ok_0, q->Ok_0);
        lemma_sites_alike(
            p->Ok_0.shared,
            p->Ok_0.pending,
            q->Ok_0.pending,
            p->Ok_0.pending.len(),
        );
    }
}

// --------------------------------------------------------------------- places

/// A key in the wrong place is an error, never passed over: a site's own key
/// outside every block, a key of the server inside one, and a key that nobody
/// knows in either place.
pub proof fn law_misplaced_keys_are_refused(
    st: Reading,
    site: PendingModel,
    n: nat,
    k: Seq<char>,
    v: Seq<char>,
)
    ensures
        site_only(k) ==> server_setting(st, n, k, v) is Err,
        server_only(k) is Some ==> site_setting(st, site, n, k, v) is Err,
        !site_only(k) && server_only(k) is None && shared_set(st.shared, k, v)
            == Ok::<Option<Shared>, Seq<char>>(None) ==> server_setting(st, n, k, v) is Err
            && site_setting(st, site, n, k, v) is Err,
{
    if site_only(k) {
        lemma_site_keys(k);
        assert(shared_set(st.shared, k, v) == Ok::<Option<Shared>, Seq<char>>(None));
    }
    if server_only(k) is Some {
        lemma_server_keys(k);
    }
}

/// The keys of a site are neither the server's nor shared.
proof fn lemma_site_keys(k: Seq<char>)
    requires
        site_only(k),
    ensures
        server_only(k) is None,
        k != "compression"@,
        k != "brotli_quality"@,
        k != "gzip_level"@,
        k != "min_compress_bytes"@,
        k != "max_brotli_bytes"@,
        k != "max_gzip_bytes"@,
        k != "max_file_size"@,
        k != "cache_max_age"@,
        k != "immutable_max_age"@,
        k != "hsts_max_age"@,
        k != "hsts_include_subdomains"@,
        k != "hsts_preload"@,
        k != "csp"@,
{
    reveal_strlit("root");
    reveal_strlit("cert");
    reveal_strlit("key");
    reveal_strlit("force_ssl");
    reveal_strlit("canonical_urls");
    reveal_strlit("redirect");
    reveal_strlit("listen");
    reveal_strlit("listen_http");
    reveal_strlit("max_total_bytes");
    reveal_strlit("storage");
    reveal_strlit("disk_cache");
    reveal_strlit("max_conns_per_ip");
    reveal_strlit("max_response_secs");
    reveal_strlit("compression");
    reveal_strlit("brotli_quality");
    reveal_strlit("gzip_level");
    reveal_strlit("min_compress_bytes");
    reveal_strlit("max_brotli_bytes");
    reveal_strlit("max_gzip_bytes");
    reveal_strlit("max_file_size");
    reveal_strlit("cache_max_age");
    reveal_strlit("immutable_max_age");
    reveal_strlit("hsts_max_age");
    reveal_strlit("hsts_include_subdomains");
    reveal_strlit("hsts_preload");
    reveal_strlit("csp");
    // No other key is as long and starts alike.
    assert(k.len() == 3 ==> k[0] == 'k');
    assert(k.len() == 14 ==> k[0] == 'c' && k[2] == 'n');
    assert(k.len() == 3 || k.len() == 4 || k.len() == 8 || k.len() == 9 || k.len() == 14);
    assert("csp"@[0] == 'c');
    assert("brotli_quality"@[0] == 'b');
    assert("max_gzip_bytes"@[0] == 'm');
}

/// The keys of the server are not a site's.
proof fn lemma_server_keys(k: Seq<char>)
    requires
        server_only(k) is Some,
    ensures
        !site_only(k),
{
    if site_only(k) {
        lemma_site_keys(k);
    }
}

// ------------------------------------------------------------------- comments

/// Trimming the end of a text that has another in front.
proof fn lemma_trimmed_blank(s: Seq<char>)
    ensures
        trimmed(s.push(' ')) == trimmed(s),
    decreases s.len(),
{
    let t = s.push(' ');
    if s.len() == 0 {
        assert(t.skip(1) == s);
        assert(trimmed_start(s) == s);
        assert(t[0] == ' ');
    } else if is_white(s[0]) {
        assert(t.skip(1) == s.skip(1).push(' '));
        lemma_trimmed_blank(s.skip(1));
    } else {
        assert(t.drop_last() == s);
    }
}

/// A line without a comment has none where more text follows, either.
proof fn lemma_comment_start(raw: Seq<char>, more: Seq<char>, i: int)
    requires
        0 <= i <= raw.len(),
        comment_start(raw, i) == raw.len(),
        more.len() > 1,
        more[0] == ' ',
        more[1] == '#',
    ensures
        comment_start(raw + more, i) == raw.len() + 1,
    decreases raw.len() - i,
{
    let all = raw + more;
    if i < raw.len() {
        assert(all[i] == raw[i]);
        if i > 0 {
            assert(all[i - 1] == raw[i - 1]);
        }
        lemma_comment_start(raw, more, i + 1);
    } else {
        assert(all[i] == ' ');
        assert(all[i + 1] == '#');
        assert(comment_start(all, i + 1) == i + 1);
    }
}

/// A comment after a blank takes nothing from a line and adds nothing to it.
pub proof fn law_comments_do_not_count(raw: Seq<char>, note: Seq<char>)
    requires
        comment_start(raw, 0) == raw.len(),
    ensures
        bare_line(raw + (" #"@ + note)) == bare_line(raw),
{
    reveal_strlit(" #");
    let more = " #"@ + note;
    lemma_comment_start(raw, more, 0);
    assert((raw + more).take(raw.len() as int + 1) == raw.push(' '));
    assert(raw.take(raw.len() as int) == raw);
    lemma_trimmed_blank(raw);
}

// --------------------------------------------------------------------- values

/// A size is a number of bytes, or of binary kilo-, mega- or gigabytes with a `K`, an
/// `M` or a `G` behind it, in either case and with white space around it or before the
/// letter; what cannot be counted is refused, and so is what is no number.
pub proof fn law_what_sizes_mean(
    key: Seq<char>,
    before: Seq<char>,
    n: nat,
    gap: Seq<char>,
    c: char,
    unit: nat,
    behind: Seq<char>,
)
    requires
        all_white(before) && all_white(gap) && all_white(behind),
        n <= usize::MAX,
        ((c == 'K' || c == 'k') && unit == 1024) || ((c == 'M' || c == 'm') && unit == 1_048_576)
            || ((c == 'G' || c == 'g') && unit == 1_073_741_824),
    ensures
        size_value(key, before + dec_text(n) + behind) == Ok::<nat, Seq<char>>(n),
        n * unit <= usize::MAX ==> size_value(key, before + (dec_text(n) + gap + seq![c]) + behind)
            == Ok::<nat, Seq<char>>(n * unit),
        n * unit > usize::MAX ==> size_value(key, before + (dec_text(n) + gap + seq![c]) + behind)
            is Err,
{
    let d = dec_text(n);
    law_numbers_are_decimal(n, 0, usize::MAX as nat);
    lemma_number_text(n);
    law_white_space_around_a_text_does_not_count(before, d, behind);
    assert(seq![] + d + seq![] =~= d);
    law_white_space_around_a_text_does_not_count(seq![], d, seq![]);
    lemma_no_suffix(d);
    let one = size_unit(d).1;
    assert(n * one == n) by (nonlinear_arith)
        requires
            one == 1,
    ;
    lemma_sized(before, d, gap, c, behind);
    let t = d + gap + seq![c];
    assert(size_unit(t) == (t.drop_last(), unit));
}

proof fn lemma_no_suffix(d: Seq<char>)
    requires
        d.len() > 0,
        '0' <= d.last() <= '9',
    ensures
        size_unit(d) == (d, 1nat),
{
    let c = d.last();
    assert(lower(c) == c);
}

/// The digits of a number are not white space.
proof fn lemma_number_text(n: nat)
    ensures
        dec_text(n).len() > 0,
        forall|i: int|
            0 <= i < dec_text(n).len() ==> '0' <= (#[trigger] dec_text(n)[i]) <= '9' && !is_white(
                dec_text(n)[i],
            ),
    decreases n,
{
    if n >= 10 {
        lemma_number_text(n / 10);
    }
    let t = dec_text(n);
    assert forall|i: int| 0 <= i < t.len() implies '0' <= (#[trigger] t[i]) <= '9' && !is_white(
        t[i],
    ) by {
        if n >= 10 && i < t.len() - 1 {
            assert(t[i] == dec_text(n / 10)[i]);
        }
    }
}

proof fn lemma_sized(
    before: Seq<char>,
    d: Seq<char>,
    gap: Seq<char>,
    c: char,
    behind: Seq<char>,
)
    requires
        all_white(before) && all_white(gap) && all_white(behind),
        d.len() > 0,
        !is_white(d[0]) && !is_white(d.last()),
        !is_white(c),
    ensures
        trimmed(before + (d + gap + seq![c]) + behind) == d + gap + seq![c],
        (d + gap + seq![c]).last() == c,
        trimmed((d + gap + seq![c]).drop_last()) == d,
{
    let t = d + gap + seq![c];
    law_white_space_around_a_text_does_not_count(before, t, behind);
    assert(t.drop_last() =~= seq![] + d + gap);
    law_white_space_around_a_text_does_not_count(seq![], d, gap);
}

/// A switch is on or off, in one of four words each, whatever their case and the white
/// space around them; nothing else is either.
pub proof fn law_what_switches_mean(key: Seq<char>, v: Seq<char>)
    ensures
        ({
            let w = lowered(trimmed(v));
            let on = w == "on"@ || w == "true"@ || w == "yes"@ || w == "1"@;
            let off = w == "off"@ || w == "false"@ || w == "no"@ || w == "0"@;
            &&& !(on && off)
            &&& on ==> bool_value(key, v) == Ok::<bool, Seq<char>>(true)
            &&& off ==> bool_value(key, v) == Ok::<bool, Seq<char>>(false)
            &&& !on && !off ==> bool_value(key, v) is Err
        }),
{
    reveal_strlit("on");
    reveal_strlit("true");
    reveal_strlit("yes");
    reveal_strlit("1");
    reveal_strlit("off");
    reveal_strlit("false");
    reveal_strlit("no");
    reveal_strlit("0");
    assert("on"@[0] == 'o' && "on"@.len() == 2);
    assert("true"@.len() == 4 && "true"@[0] == 't');
    assert("yes"@.len() == 3 && "yes"@[0] == 'y');
    assert("1"@.len() == 1 && "1"@[0] == '1');
    assert("off"@.len() == 3 && "off"@[0] == 'o');
    assert("false"@.len() == 5 && "false"@[0] == 'f');
    assert("no"@.len() == 2 && "no"@[0] == 'n');
    assert("0"@.len() == 1 && "0"@[0] == '0');
}

/// A number that is written out is that number: a level within its range, a count, or
/// a time in seconds, of which a deadline is at most a day; a level beyond its range
/// and a deadline beyond a day are refused.
pub proof fn law_what_numbers_mean(
    key: Seq<char>,
    before: Seq<char>,
    n: nat,
    behind: Seq<char>,
    lo: u32,
    hi: u32,
)
    requires
        all_white(before) && all_white(behind),
    ensures
        ({
            let v = before + dec_text(n) + behind;
            &&& n <= usize::MAX ==> count_value(key, v) == Ok::<usize, Seq<char>>(n as usize)
            &&& n <= u64::MAX ==> secs_value(key, v) == Ok::<u64, Seq<char>>(n as u64)
            &&& n > u64::MAX ==> secs_value(key, v) is Err
            &&& n <= 86_400 ==> deadline_value(key, v) == Ok::<u64, Seq<char>>(n as u64)
            &&& n > 86_400 ==> deadline_value(key, v) is Err
            &&& lo <= n <= hi ==> ranged_value(key, v, lo, hi) == Ok::<u32, Seq<char>>(n as u32)
            &&& n < lo || n > hi ==> ranged_value(key, v, lo, hi) is Err
        }),
{
    let d = dec_text(n);
    lemma_number_text(n);
    law_white_space_around_a_text_does_not_count(before, d, behind);
    law_numbers_are_decimal(n, 0, usize::MAX as nat);
    law_numbers_are_decimal(n, 0, u64::MAX as nat);
    law_numbers_are_decimal(n, 0, u32::MAX as nat);
}

/// What is no number is refused wherever a number is asked for.
pub proof fn law_other_values_are_refused(
    key: Seq<char>,
    v: Seq<char>,
    i: int,
    lo: u32,
    hi: u32,
)
    requires
        trimmed(v).len() == 0 || (0 <= i < trimmed(v).len() && !('0' <= trimmed(v)[i] <= '9') && (i
            > 0 || trimmed(v)[i] != '+')),
    ensures
        count_value(key, v) is Err,
        secs_value(key, v) is Err,
        deadline_value(key, v) is Err,
        ranged_value(key, v, lo, hi) is Err,
{
    law_only_digits_are_numbers(trimmed(v), usize::MAX as nat, i);
    law_only_digits_are_numbers(trimmed(v), u64::MAX as nat, i);
    law_only_digits_are_numbers(trimmed(v), u32::MAX as nat, i);
}

/// The value of a header is taken as it is, without the white space around it, unless
/// it holds a control character.
pub proof fn law_what_header_values_mean(key: Seq<char>, v: Seq<char>, i: int)
    ensures
        0 <= i < trimmed(v).len() && ((trimmed(v)[i] as u32) < 0x20 || trimmed(v)[i] as u32 == 0x7f)
            ==> header_value(key, v) is Err,
        (forall|j: int|
            0 <= j < trimmed(v).len() ==> !((#[trigger] trimmed(v)[j] as u32) < 0x20 || trimmed(
                v,
            )[j] as u32 == 0x7f)) ==> header_value(key, v) == Ok::<Seq<char>, Seq<char>>(trimmed(v)),
{
    if 0 <= i < trimmed(v).len() && ((trimmed(v)[i] as u32) < 0x20 || trimmed(v)[i] as u32 == 0x7f) {
        assert(is_control(trimmed(v)[i]));
    }
}

// ----------------------------------------------------------------------- keys

/// Each setting that a server and its sites share sets what it is called, to what its
/// value means, and nothing else.
pub proof fn law_settings_set_what_they_are_called(s: Shared, v: Seq<char>)
    ensures
        shared_set(s, "compression"@, v) == (match bool_value("compression"@, v) {
            Ok(x) => Ok::<Option<Shared>, Seq<char>>(Some(Shared { tuning: Tuning { compression: x, ..s.tuning }, ..s })),
            Err(e) => Err(e),
        }),
        shared_set(s, "brotli_quality"@, v) == (match ranged_value("brotli_quality"@, v, 0, 11) {
            Ok(x) => Ok::<Option<Shared>, Seq<char>>(Some(Shared { tuning: Tuning { brotli_quality: x, ..s.tuning }, ..s })),
            Err(e) => Err(e),
        }),
        shared_set(s, "gzip_level"@, v) == (match ranged_value("gzip_level"@, v, 0, 9) {
            Ok(x) => Ok::<Option<Shared>, Seq<char>>(Some(Shared { tuning: Tuning { gzip_level: x, ..s.tuning }, ..s })),
            Err(e) => Err(e),
        }),
        shared_set(s, "min_compress_bytes"@, v) == (match size_value("min_compress_bytes"@, v) {
            Ok(x) => Ok::<Option<Shared>, Seq<char>>(Some(Shared { tuning: Tuning { min_compress_bytes: x as usize, ..s.tuning }, ..s })),
            Err(e) => Err(e),
        }),
        shared_set(s, "max_brotli_bytes"@, v) == (match size_value("max_brotli_bytes"@, v) {
            Ok(x) => Ok::<Option<Shared>, Seq<char>>(Some(Shared { tuning: Tuning { max_brotli_bytes: x as usize, ..s.tuning }, ..s })),
            Err(e) => Err(e),
        }),
        shared_set(s, "max_gzip_bytes"@, v) == (match size_value("max_gzip_bytes"@, v) {
            Ok(x) => Ok::<Option<Shared>, Seq<char>>(Some(Shared { tuning: Tuning { max_gzip_bytes: x as usize, ..s.tuning }, ..s })),
            Err(e) => Err(e),
        }),
        shared_set(s, "max_file_size"@, v) == (match size_value("max_file_size"@, v) {
            Ok(x) => Ok::<Option<Shared>, Seq<char>>(Some(Shared { tuning: Tuning { max_file_size: x as usize, ..s.tuning }, ..s })),
            Err(e) => Err(e),
        }),
        shared_set(s, "cache_max_age"@, v) == (match secs_value("cache_max_age"@, v) {
            Ok(x) => Ok::<Option<Shared>, Seq<char>>(Some(Shared { tuning: Tuning { cache_max_age: x, ..s.tuning }, ..s })),
            Err(e) => Err(e),
        }),
        shared_set(s, "immutable_max_age"@, v) == (match secs_value("immutable_max_age"@, v) {
            Ok(x) => Ok::<Option<Shared>, Seq<char>>(Some(Shared { tuning: Tuning { immutable_max_age: x, ..s.tuning }, ..s })),
            Err(e) => Err(e),
        }),
        shared_set(s, "hsts_max_age"@, v) == (match secs_value("hsts_max_age"@, v) {
            Ok(x) => Ok::<Option<Shared>, Seq<char>>(Some(Shared { headers: HeaderModel { hsts_max_age: x, ..s.headers }, ..s })),
            Err(e) => Err(e),
        }),
        shared_set(s, "hsts_include_subdomains"@, v) == (match bool_value("hsts_include_subdomains"@, v) {
            Ok(x) => Ok::<Option<Shared>, Seq<char>>(Some(Shared { headers: HeaderModel { hsts_include_subdomains: x, ..s.headers }, ..s })),
            Err(e) => Err(e),
        }),
        shared_set(s, "hsts_preload"@, v) == (match bool_value("hsts_preload"@, v) {
            Ok(x) => Ok::<Option<Shared>, Seq<char>>(Some(Shared { headers: HeaderModel { hsts_preload: x, ..s.headers }, ..s })),
            Err(e) => Err(e),
        }),
        shared_set(s, "csp"@, v) == (match header_value("csp"@, v) {
            Ok(x) => Ok::<Option<Shared>, Seq<char>>(Some(Shared { headers: HeaderModel { csp: x, ..s.headers }, ..s })),
            Err(e) => Err(e),
        }),
{
    reveal_strlit("compression");
    assert("compression"@.len() == 11 && "compression"@[0] == 'c' && "compression"@[5] == 'e');
    reveal_strlit("brotli_quality");
    assert("brotli_quality"@.len() == 14 && "brotli_quality"@[0] == 'b' && "brotli_quality"@[5] == 'i');
    reveal_strlit("gzip_level");
    assert("gzip_level"@.len() == 10 && "gzip_level"@[0] == 'g' && "gzip_level"@[5] == 'l');
    reveal_strlit("min_compress_bytes");
    assert("min_compress_bytes"@.len() == 18 && "min_compress_bytes"@[0] == 'm' && "min_compress_bytes"@[5] == 'o');
    reveal_strlit("max_brotli_bytes");
    assert("max_brotli_bytes"@.len() == 16 && "max_brotli_bytes"@[0] == 'm' && "max_brotli_bytes"@[5] == 'r');
    reveal_strlit("max_gzip_bytes");
    assert("max_gzip_bytes"@.len() == 14 && "max_gzip_bytes"@[0] == 'm' && "max_gzip_bytes"@[5] == 'z');
    reveal_strlit("max_file_size");
    assert("max_file_size"@.len() == 13 && "max_file_size"@[0] == 'm' && "max_file_size"@[5] == 'i');
    reveal_strlit("cache_max_age");
    assert("cache_max_age"@.len() == 13 && "cache_max_age"@[0] == 'c' && "cache_max_age"@[5] == '_');
    reveal_strlit("immutable_max_age");
    assert("immutable_max_age"@.len() == 17 && "immutable_max_age"@[0] == 'i' && "immutable_max_age"@[5] == 'a');
    reveal_strlit("hsts_max_age");
    assert("hsts_max_age"@.len() == 12 && "hsts_max_age"@[0] == 'h' && "hsts_max_age"@[5] == 'm');
    reveal_strlit("hsts_include_subdomains");
    assert("hsts_include_subdomains"@.len() == 23 && "hsts_include_subdomains"@[0] == 'h' && "hsts_include_subdomains"@[5] == 'i');
    reveal_strlit("hsts_preload");
    assert("hsts_preload"@.len() == 12 && "hsts_preload"@[0] == 'h' && "hsts_preload"@[5] == 'p');
    reveal_strlit("csp");
    assert("csp"@.len() == 3 && "csp"@[0] == 'c');
}

/// Each setting of a site sets what it is called, and nothing else.
pub proof fn law_site_settings_set_what_they_are_called(
    st: Reading,
    site: PendingModel,
    n: nat,
    v: Seq<char>,
)
    ensures
        site_setting(st, site, n, "root"@, v) == Ok::<Reading, Seq<char>>(
            Reading { cur: Some(PendingModel { root: Some(v), ..site }), ..st },
        ),
        site_setting(st, site, n, "cert"@, v) == Ok::<Reading, Seq<char>>(
            Reading { cur: Some(PendingModel { cert: Some(v), ..site }), ..st },
        ),
        site_setting(st, site, n, "key"@, v) == Ok::<Reading, Seq<char>>(
            Reading { cur: Some(PendingModel { key: Some(v), ..site }), ..st },
        ),
        bool_value("force_ssl"@, v) matches Ok(x) ==> site_setting(st, site, n, "force_ssl"@, v)
            == Ok::<Reading, Seq<char>>(
            Reading { cur: Some(PendingModel { force_ssl: x, ..site }), ..st },
        ),
        bool_value("force_ssl"@, v) is Err ==> site_setting(st, site, n, "force_ssl"@, v) is Err,
        bool_value("canonical_urls"@, v) matches Ok(x) ==> site_setting(
            st,
            site,
            n,
            "canonical_urls"@,
            v,
        ) == Ok::<Reading, Seq<char>>(
            Reading { cur: Some(PendingModel { canonical_urls: x, ..site }), ..st },
        ),
        bool_value("canonical_urls"@, v) is Err ==> site_setting(st, site, n, "canonical_urls"@, v)
            is Err,
{
    reveal_strlit("root");
    reveal_strlit("cert");
    reveal_strlit("key");
    reveal_strlit("force_ssl");
    reveal_strlit("canonical_urls");
    assert("root"@.len() == 4 && "root"@[0] == 'r');
    assert("cert"@.len() == 4 && "cert"@[0] == 'c');
    assert("key"@.len() == 3);
    assert("force_ssl"@.len() == 9);
    assert("canonical_urls"@.len() == 14);
}

/// A site keeps what it says of a shared setting for itself, with the line it said it
/// on, once the value is one; the server's own is left as it is.
pub proof fn law_site_overrides_are_noted(
    st: Reading,
    site: PendingModel,
    n: nat,
    k: Seq<char>,
    v: Seq<char>,
)
    requires
        !site_only(k),
        server_only(k) is None,
    ensures
        shared_set(st.shared, k, v) matches Ok(Some(_)) ==> site_setting(st, site, n, k, v) == Ok::<
            Reading,
            Seq<char>,
        >(
            Reading {
                cur: Some(PendingModel { overrides: site.overrides.push((n, k, v)), ..site }),
                ..st
            },
        ),
        !(shared_set(st.shared, k, v) matches Ok(Some(_))) ==> site_setting(st, site, n, k, v)
            is Err,
{
}

/// Each setting of the server sets what it is called, and nothing else. A listener is
/// a host and a port, between which the last colon stands.
pub proof fn law_server_settings_set_what_they_are_called(
    st: Reading,
    n: nat,
    host: Seq<char>,
    port: Seq<char>,
    v: Seq<char>,
)
    requires
        !port.contains(':'),
        trimmed(host).len() > 0,
        trimmed(port).len() > 0,
    ensures
        server_setting(st, n, "listen"@, host + seq![':'] + port) == Ok::<Reading, Seq<char>>(
            Reading { host, port, ..st },
        ),
        server_setting(st, n, "listen_http"@, host + seq![':'] + port) == Ok::<Reading, Seq<char>>(
            Reading { http_host: host, http_port: port, ..st },
        ),
        server_setting(st, n, "listen"@, port) is Err,
        server_setting(st, n, "listen_http"@, port) is Err,
        size_value("max_total_bytes"@, v) matches Ok(x) ==> server_setting(
            st,
            n,
            "max_total_bytes"@,
            v,
        ) == Ok::<Reading, Seq<char>>(
            Reading {
                shared: Shared {
                    tuning: Tuning { max_total_bytes: x as usize, ..st.shared.tuning },
                    ..st.shared
                },
                ..st
            },
        ),
        count_value("max_conns_per_ip"@, v) matches Ok(x) ==> server_setting(
            st,
            n,
            "max_conns_per_ip"@,
            v,
        ) == Ok::<Reading, Seq<char>>(Reading { max_conns_per_ip: x, ..st }),
        deadline_value("max_response_secs"@, v) matches Ok(x) ==> server_setting(
            st,
            n,
            "max_response_secs"@,
            v,
        ) == Ok::<Reading, Seq<char>>(Reading { max_response_secs: x, ..st }),
        lowered(trimmed(v)) == "memory"@ || lowered(trimmed(v)) == "mem"@ || lowered(trimmed(v))
            == "ram"@ ==> server_setting(st, n, "storage"@, v) == Ok::<Reading, Seq<char>>(
            Reading { storage: Storage::Memory, ..st },
        ),
        lowered(trimmed(v)) == "disk"@ ==> server_setting(st, n, "storage"@, v) == Ok::<
            Reading,
            Seq<char>,
        >(Reading { storage: Storage::Disk, ..st }),
        lowered(trimmed(v)) != "memory"@ && lowered(trimmed(v)) != "mem"@ && lowered(trimmed(v))
            != "ram"@ && lowered(trimmed(v)) != "disk"@ ==> server_setting(st, n, "storage"@, v)
            is Err,
        server_setting(st, n, "disk_cache"@, v) == Ok::<Reading, Seq<char>>(
            Reading { disk_cache: Some(trimmed(v)), ..st },
        ),
{
    reveal_strlit("listen");
    reveal_strlit("listen_http");
    reveal_strlit("max_total_bytes");
    reveal_strlit("max_conns_per_ip");
    reveal_strlit("max_response_secs");
    reveal_strlit("storage");
    reveal_strlit("disk_cache");
    reveal_strlit("memory");
    reveal_strlit("mem");
    reveal_strlit("ram");
    reveal_strlit("disk");
    assert("listen"@.len() == 6 && "listen_http"@.len() == 11 && "max_total_bytes"@.len() == 15
        && "max_conns_per_ip"@.len() == 16 && "max_response_secs"@.len() == 17 && "storage"@.len()
        == 7 && "disk_cache"@.len() == 10);
    assert("memory"@.len() == 6 && "mem"@.len() == 3 && "ram"@.len() == 3 && "disk"@.len() == 4);
    law_a_back_cut_is_at_the_last(host, ':', port);
}

// ---------------------------------------------------------------------- lines

/// A file is read line by line, in order, and each line is known by its number; the
/// first that cannot be read is what is said of the file.
pub proof fn law_files_are_read_in_order(text: Seq<Seq<char>>, line: Seq<char>)
    ensures
        lines_read(seq![], 0) == Ok::<Reading, Seq<char>>(nothing_read()),
        lines_read(text.push(line), text.len() + 1) == (match lines_read(text, text.len()) {
            Ok(st) => line_read(st, text.len() + 1, line),
            Err(e) => Err(e),
        }),
{
    lemma_lines_of_front(text, line, text.len());
}

proof fn lemma_lines_of_front(text: Seq<Seq<char>>, line: Seq<char>, count: nat)
    requires
        count <= text.len(),
    ensures
        lines_read(text.push(line), count) == lines_read(text, count),
    decreases count,
{
    if count > 0 {
        lemma_lines_of_front(text, line, (count - 1) as nat);
        assert(text.push(line)[count - 1] == text[count - 1]);
    }
}

/// A comment starts where a number sign stands at the start of a line or behind white
/// space, and nowhere else: a number sign inside a word is part of it.
pub proof fn law_where_comments_start(raw: Seq<char>, note: Seq<char>, i: int)
    ensures
        bare_line(seq!['#'] + note) == Seq::<char>::empty(),
        (forall|j: int|
            0 <= j < raw.len() && #[trigger] raw[j] == '#' ==> j > 0 && raw[j - 1] != ' ' && raw[j
                - 1] != '\t' && raw[j - 1] != '\n' && raw[j - 1] != '\r' && raw[j - 1] != '\x0C')
            ==> bare_line(raw) == trimmed(raw),
{
    let c = seq!['#'] + note;
    assert(c[0] == '#');
    assert(c.take(0) =~= seq![]);
    assert(trimmed(seq![]) =~= Seq::<char>::empty());
    if forall|j: int|
        0 <= j < raw.len() && #[trigger] raw[j] == '#' ==> j > 0 && raw[j - 1] != ' ' && raw[j - 1]
            != '\t' && raw[j - 1] != '\n' && raw[j - 1] != '\r' && raw[j - 1] != '\x0C' {
        lemma_no_comment(raw, 0);
        assert(raw.take(raw.len() as int) =~= raw);
    }
}

proof fn lemma_no_comment(raw: Seq<char>, i: int)
    requires
        0 <= i <= raw.len(),
        forall|j: int|
            0 <= j < raw.len() && #[trigger] raw[j] == '#' ==> j > 0 && raw[j - 1] != ' ' && raw[j
                - 1] != '\t' && raw[j - 1] != '\n' && raw[j - 1] != '\r' && raw[j - 1] != '\x0C',
    ensures
        comment_start(raw, i) == raw.len(),
    decreases raw.len() - i,
{
    if i < raw.len() {
        lemma_no_comment(raw, i + 1);
    }
}

/// A key and its value stand on either side of the first equals sign, white space
/// around them aside: outside a block the line sets a key of the server, inside one a
/// key of the site. A line with nothing on it says nothing.
pub proof fn law_settings_stand_around_an_equals_sign(
    st: Reading,
    n: nat,
    key: Seq<char>,
    value: Seq<char>,
)
    requires
        key.len() > 0,
        key != "site"@ && key != "redirect"@,
        !key.contains('=') && !key.contains('#') && !value.contains('#'),
        forall|i: int| 0 <= i < key.len() ==> !is_white(#[trigger] key[i]),
        value.len() > 0,
        !is_white(value[0]) && !is_white(value.last()),
    ensures
        ({
            let raw = key + " = "@ + value;
            &&& st.cur is None ==> line_read(st, n, raw) == server_setting(st, n, key, value)
            &&& st.cur matches Some(site) ==> line_read(st, n, raw) == site_setting(
                st,
                site,
                n,
                key,
                value,
            )
            &&& line_read(st, n, key + "="@ + value) == line_read(st, n, raw)
            &&& line_read(st, n, seq![]) == Ok::<Reading, Seq<char>>(st)
        }),
{
    reveal_strlit(" = ");
    reveal_strlit("=");
    let k1 = key + seq![' '];
    let v1 = seq![' '] + value;
    let raw = key + " = "@ + value;
    assert(raw =~= k1 + seq!['='] + v1);
    let tight = key + "="@ + value;
    assert(tight =~= key + seq!['='] + value);
    lemma_plain_line(raw);
    lemma_plain_line(tight);
    assert(!k1.contains('=')) by {
        assert forall|i: int| 0 <= i < k1.len() implies k1[i] != '=' by {
            if i < key.len() {
                assert(key.contains(key[i]));
            }
        }
    }
    law_a_cut_is_at_the_first(k1, '=', v1);
    law_a_cut_is_at_the_first(key, '=', value);
    assert(k1 =~= seq![] + key + seq![' ']);
    assert(seq![] + key + seq![] =~= key);
    assert(v1 =~= seq![' '] + value + seq![]);
    assert(seq![] + value + seq![] =~= value);
    law_white_space_around_a_text_does_not_count(seq![], key, seq![' ']);
    law_white_space_around_a_text_does_not_count(seq![], key, seq![]);
    law_white_space_around_a_text_does_not_count(seq![' '], value, seq![]);
    law_white_space_around_a_text_does_not_count(seq![], value, seq![]);
    lemma_no_block_word(key, raw);
    lemma_no_block_word(key, tight);
    law_where_comments_start(seq![], seq![], 0);
    assert(trimmed(seq![]) =~= Seq::<char>::empty());
}

/// A line that is no comment and has no white space around it stands as it is.
proof fn lemma_plain_line(raw: Seq<char>)
    requires
        raw.len() > 0,
        !is_white(raw[0]) && !is_white(raw.last()),
        !raw.contains('#'),
    ensures
        bare_line(raw) == raw,
{
    assert forall|j: int| 0 <= j < raw.len() && #[trigger] raw[j] == '#' implies false by {
        assert(raw.contains(raw[j]));
    }
    law_where_comments_start(raw, seq![], 0);
    assert(seq![] + raw + seq![] =~= raw);
    law_white_space_around_a_text_does_not_count(seq![], raw, seq![]);
}

proof fn lemma_no_block_word(key: Seq<char>, line: Seq<char>)
    requires
        key.len() > 0,
        key.is_prefix_of(line),
        line.len() > key.len() + 1,
        forall|i: int| 0 <= i < key.len() ==> !is_white(#[trigger] key[i]),
        line[key.len() as int] == '=' || line[key.len() as int] == ' ',
        key != "site"@ && key != "redirect"@,
    ensures
        line != "}"@,
        after_word(line, "site "@, "site\t"@) is None,
        after_word(line, "redirect "@, "redirect\t"@) is None,
{
    reveal_strlit("}");
    reveal_strlit("site");
    reveal_strlit("redirect");
    reveal_strlit("site ");
    reveal_strlit("site\t");
    reveal_strlit("redirect ");
    reveal_strlit("redirect\t");
    assert("site "@.take(4) =~= "site"@);
    assert("site\t"@.take(4) =~= "site"@);
    assert("redirect "@.take(8) =~= "redirect"@);
    assert("redirect\t"@.take(8) =~= "redirect"@);
    lemma_not_behind(key, line, "site"@, "site "@);
    lemma_not_behind(key, line, "site"@, "site\t"@);
    lemma_not_behind(key, line, "redirect"@, "redirect "@);
    lemma_not_behind(key, line, "redirect"@, "redirect\t"@);
}

proof fn lemma_not_behind(key: Seq<char>, line: Seq<char>, word: Seq<char>, spaced: Seq<char>)
    requires
        key.is_prefix_of(line),
        line.len() > key.len() + 1,
        forall|i: int| 0 <= i < key.len() ==> !is_white(#[trigger] key[i]),
        line[key.len() as int] == '=' || line[key.len() as int] == ' ',
        key != word,
        spaced.len() == word.len() + 1,
        spaced.take(word.len() as int) == word,
        is_white(spaced.last()),
        forall|i: int| 0 <= i < word.len() ==> 'a' <= (#[trigger] word[i]) <= 'z',
    ensures
        !spaced.is_prefix_of(line),
{
    if spaced.is_prefix_of(line) {
        let n = word.len() as int;
        let k = key.len() as int;
        assert(line[n] == line.subrange(0, spaced.len() as int)[n]);
        assert(line[n] == spaced.last());
        if k > n {
            assert(key[n] == line.subrange(0, k)[n]);
        } else if k < n {
            assert(line[k] == line.subrange(0, spaced.len() as int)[k]);
            assert(spaced[k] == spaced.take(n)[k]);
            assert(word[k] == line[k]);
        } else {
            assert(key =~= line.subrange(0, k));
            assert(word =~= line.subrange(0, k)) by {
                assert forall|i: int| 0 <= i < n implies word[i] == line[i] by {
                    assert(spaced.take(n)[i] == spaced[i]);
                    assert(line.subrange(0, spaced.len() as int)[i] == line[i]);
                }
            }
        }
    }
}

// ------------------------------------------------------------- blocks and rules

/// The names of a site are those that are listed, in order, each in lower case and
/// without the white space around it; an empty one does not count.
pub proof fn law_names_are_listed(listed: Seq<Seq<char>>, name: Seq<char>)
    ensures
        host_names(seq![]) == Seq::<Seq<char>>::empty(),
        trimmed(name).len() > 0 ==> host_names(listed.push(name)) == host_names(listed).push(
            lowered(trimmed(name)),
        ),
        trimmed(name).len() == 0 ==> host_names(listed.push(name)) == host_names(listed),
{
    assert(listed.push(name).drop_last() =~= listed);
}

/// A site is a block: the word, its names with commas between them, and an opening
/// brace. Until the closing brace the lines are about that site, which starts out with
/// nothing but its names, redirects to HTTPS, and takes URLs as they are.
pub proof fn law_blocks_open_and_close(
    st: Reading,
    n: nat,
    listed: Seq<Seq<char>>,
)
    requires
        listed.len() > 0,
        none_holds(listed, ','),
        none_holds(listed, '#'),
        listed[0].len() > 0,
        !is_white(listed[0][0]) && listed[0][0] != '=',
    ensures
        ({
            let raw = "site "@ + with_between(listed, ',') + "{"@;
            let r = line_read(st, n, raw);
            &&& st.cur is Some ==> r is Err
            &&& st.cur is None && host_names(listed).len() == 0 ==> r is Err
            &&& st.cur is None && host_names(listed).len() > 0 ==> r == Ok::<Reading, Seq<char>>(
                Reading {
                    cur: Some(
                        PendingModel {
                            line: n,
                            hosts: host_names(listed),
                            root: None,
                            cert: None,
                            key: None,
                            force_ssl: true,
                            canonical_urls: false,
                            redirects: RuleSet {
                                exact: Map::empty(),
                                prefix: seq![],
                                all: None,
                            },
                            overrides: seq![],
                        },
                    ),
                    ..st
                },
            )
            &&& st.cur is None ==> line_read(st, n, "}"@) is Err
            &&& st.cur matches Some(site) ==> line_read(st, n, "}"@) == Ok::<Reading, Seq<char>>(
                Reading {
                    cur: None,
                    pending: st.pending.push(
                        PendingModel {
                            redirects: RuleSet {
                                prefix: longest_first(site.redirects.prefix),
                                ..site.redirects
                            },
                            ..site
                        },
                    ),
                    ..st
                },
            )
        }),
{
    reveal_strlit("site ");
    reveal_strlit("site\t");
    reveal_strlit("{");
    reveal_strlit("}");
    let names = with_between(listed, ',');
    let raw = "site "@ + names + "{"@;
    let rest = names + "{"@;
    lemma_between_starts(listed, ',');
    lemma_between_holds(listed, ',', '#');
    assert(!raw.contains('#')) by {
        assert forall|i: int| 0 <= i < raw.len() implies raw[i] != '#' by {
            if 5 <= i < 5 + names.len() {
                assert(names.contains(names[i - 5]));
            }
        }
    }
    assert(raw[0] == 's' && raw.last() == '{');
    lemma_plain_line(raw);
    assert("site "@ =~= raw.subrange(0, 5));
    assert(raw.skip(5) =~= rest);
    assert(raw.len() > 1 && "}"@.len() == 1);
    assert(seq![] + rest + seq![] =~= rest);
    assert(rest[0] == names[0] && rest.last() == '{');
    law_white_space_around_a_text_does_not_count(seq![], rest, seq![]);
    assert(rest.drop_last() =~= names);
    law_splitting_undoes_joining(listed, ',');
    assert("}"@[0] == '}');
    assert(!"}"@.contains('#'));
    lemma_plain_line("}"@);
}

proof fn lemma_between_starts(list: Seq<Seq<char>>, sep: char)
    requires
        list.len() > 0,
        list[0].len() > 0,
    ensures
        with_between(list, sep).len() > 0,
        with_between(list, sep)[0] == list[0][0],
{
}

proof fn lemma_between_holds(list: Seq<Seq<char>>, sep: char, c: char)
    requires
        none_holds(list, c),
        c != sep,
    ensures
        !with_between(list, sep).contains(c),
    decreases list.len(),
{
    if list.len() > 0 {
        let rest = list.skip(1);
        assert forall|i: int| 0 <= i < rest.len() implies !(#[trigger] rest[i]).contains(c) by {
            assert(rest[i] == list[i + 1]);
        }
        lemma_between_holds(rest, sep, c);
        assert(!list[0].contains(c));
        let t = with_between(list, sep);
        let tail = with_between(rest, sep);
        assert forall|i: int| 0 <= i < t.len() implies t[i] != c by {
            if i < list[0].len() {
                assert(list[0].contains(list[0][i]));
            } else if i > list[0].len() {
                assert(tail.contains(tail[i - list[0].len() - 1]));
            }
        }
    }
}

/// A rule stands in the block of its site, the pattern and the target on either side
/// of an arrow: a good one is added to the rules of the site, a bad one refuses the
/// file, and so does one outside every block.
#[verifier::spinoff_prover]
#[verifier::rlimit(80)]
pub proof fn law_rules_stand_in_blocks(
    st: Reading,
    n: nat,
    pattern: Seq<char>,
    target: Seq<char>,
)
    requires
        pattern.len() > 0 && target.len() > 0,
        !is_white(pattern[0]) && !is_white(pattern.last()) && pattern[0] != '=',
        !is_white(target[0]) && !is_white(target.last()),
        !pattern.contains('>') && !pattern.contains('#') && !target.contains('#'),
    ensures
        ({
            let raw = "redirect "@ + pattern + " -> "@ + target;
            let r = line_read(st, n, raw);
            &&& st.cur is None ==> r is Err
            &&& st.cur matches Some(site) ==> match rule_refused(site.redirects, pattern, target) {
                Some(_) => r is Err,
                None => r == Ok::<Reading, Seq<char>>(
                    Reading {
                        cur: Some(
                            PendingModel {
                                redirects: rule_added(site.redirects, pattern, target),
                                ..site
                            },
                        ),
                        ..st
                    },
                ),
            }
        }),
{
    reveal_strlit("redirect ");
    reveal_strlit("site ");
    reveal_strlit("site\t");
    reveal_strlit("redirect\t");
    reveal_strlit(" -> ");
    reveal_strlit("->");
    reveal_strlit("}");
    let rest = pattern + " -> "@ + target;
    let raw = "redirect "@ + pattern + " -> "@ + target;
    assert(raw =~= "redirect "@ + rest);
    assert(raw[0] == 'r' && raw.last() == target.last());
    assert(!raw.contains('#')) by {
        assert forall|i: int| 0 <= i < raw.len() implies raw[i] != '#' by {
            if 9 <= i < 9 + pattern.len() {
                assert(pattern.contains(pattern[i - 9]));
            } else if i >= 9 + pattern.len() + 4 {
                assert(target.contains(target[i - 9 - pattern.len() - 4]));
            }
        }
    }
    lemma_plain_line(raw);
    assert("redirect "@ =~= raw.subrange(0, 9));
    assert(raw.skip(9) =~= rest);
    if "site "@.is_prefix_of(raw) {
        assert(raw.subrange(0, 5)[0] == 's');
    }
    if "site\t"@.is_prefix_of(raw) {
        assert(raw.subrange(0, 5)[0] == 's');
    }
    assert(seq![] + rest + seq![] =~= rest);
    assert(rest[0] == pattern[0] && rest.last() == target.last());
    law_white_space_around_a_text_does_not_count(seq![], rest, seq![]);
    let k = pattern.len() as int + 1;
    assert(rest.subrange(k, k + 2) =~= "->"@);
    lemma_first_run_from(rest, "->"@, 0);
    let i = crate::text::first_run(rest, "->"@)->0;
    assert(i == k) by {
        if i < k {
            assert(rest.subrange(i, i + 2)[1] == rest[i + 1]);
            if i + 1 < pattern.len() {
                assert(pattern.contains(pattern[i + 1]));
            }
        }
        if k < i {
            assert(rest.subrange(k, k + "->"@.len()) != "->"@);
        }
    }
    assert(rest.take(k) =~= seq![] + pattern + seq![' ']);
    assert(rest.skip(k + 2) =~= seq![' '] + target + seq![]);
    law_white_space_around_a_text_does_not_count(seq![], pattern, seq![' ']);
    law_white_space_around_a_text_does_not_count(seq![' '], target, seq![]);
}

// ------------------------------------------------------------------- whole files

/// What a site needs: a certificate and a key, and something to serve or to redirect;
/// all that was said of it is kept as it was said, with the shared settings as the
/// server has them and the site has overridden them.
pub proof fn law_what_a_site_needs(base: Shared, p: PendingModel)
    ensures
        p.cert is None || p.key is None ==> site_resolved(base, p) is Err,
        p.root is None && p.redirects == no_rules() ==> site_resolved(base, p) is Err,
        p.cert is Some && p.key is Some && (p.root is Some || p.redirects != no_rules())
            ==> match overridden(base, p.overrides, p.overrides.len()) {
            Ok(s) => site_resolved(base, p) == Ok::<SiteModel, Seq<char>>(
                SiteModel {
                    hosts: p.hosts,
                    root: p.root,
                    cert: p.cert->0,
                    key: p.key->0,
                    force_ssl: p.force_ssl,
                    canonical_urls: p.canonical_urls,
                    redirects: p.redirects,
                    tuning: s.tuning,
                    headers: s.headers,
                },
            ),
            Err(_) => site_resolved(base, p) is Err,
        },
        p.overrides.len() == 0 ==> overridden(base, p.overrides, 0) == Ok::<Shared, Seq<char>>(base),
{
}

proof fn lemma_sites_in_order(base: Shared, pending: Seq<PendingModel>, count: nat)
    requires
        count <= pending.len(),
    ensures
        match sites_resolved(base, pending, count) {
            Ok(sites) => sites.len() == count && forall|i: int|
                0 <= i < count ==> site_resolved(base, pending[i]) == Ok::<SiteModel, Seq<char>>(
                    #[trigger] sites[i],
                ),
            Err(_) => exists|i: int|
                0 <= i < count && site_resolved(base, #[trigger] pending[i]) is Err,
        },
    decreases count,
{
    if count > 0 {
        lemma_sites_in_order(base, pending, (count - 1) as nat);
        match sites_resolved(base, pending, (count - 1) as nat) {
            Ok(front) => match site_resolved(base, pending[count - 1]) {
                Ok(site) => {
                    let sites = front.push(site);
                    assert forall|i: int| 0 <= i < count implies site_resolved(base, pending[i])
                        == Ok::<SiteModel, Seq<char>>(#[trigger] sites[i]) by {
                        if i < count - 1 {
                            assert(sites[i] == front[i]);
                        }
                    }
                },
                Err(_) => {
                    assert(site_resolved(base, pending[count - 1]) is Err);
                },
            },
            Err(_) => {},
        }
    }
}

/// What a file needs: every block closed, a listener, a site, and for storage on disk
/// a place for it. What was read is then what is configured, the sites in the order of
/// their blocks; a site that lacks something refuses the file.
pub proof fn law_what_a_file_needs(st: Reading)
    ensures
        st.cur is Some ==> file_resolved(st) is Err,
        st.host.len() == 0 || st.port.len() == 0 ==> file_resolved(st) is Err,
        st.pending.len() == 0 ==> file_resolved(st) is Err,
        st.storage == Storage::Disk && (st.disk_cache is None || st.disk_cache->0.len() == 0)
            ==> file_resolved(st) is Err,
        (exists|i: int|
            0 <= i < st.pending.len() && site_resolved(st.shared, #[trigger] st.pending[i]) is Err)
            ==> file_resolved(st) is Err,
        file_resolved(st) matches Ok(c) ==> {
            &&& c.host == st.host && c.port == st.port
            &&& c.http_host == st.http_host && c.http_port == st.http_port
            &&& c.headers == st.shared.headers
            &&& c.max_conns_per_ip == st.max_conns_per_ip
            &&& c.max_response_secs == st.max_response_secs
            &&& c.storage == st.storage && c.disk_cache == st.disk_cache
            &&& c.sites.len() == st.pending.len()
            &&& forall|i: int|
                0 <= i < c.sites.len() ==> site_resolved(st.shared, st.pending[i]) == Ok::<
                    SiteModel,
                    Seq<char>,
                >(#[trigger] c.sites[i])
        },
        st.cur is None && st.host.len() > 0 && st.port.len() > 0 && st.pending.len() > 0 && (
        st.storage == Storage::Memory || (st.disk_cache is Some && st.disk_cache->0.len() > 0)) && (
        forall|i: int|
            0 <= i < st.pending.len() ==> site_resolved(st.shared, #[trigger] st.pending[i]) is Ok)
            ==> file_resolved(st) is Ok,
{
    lemma_sites_in_order(st.shared, st.pending, st.pending.len());
    if exists|i: int|
        0 <= i < st.pending.len() && site_resolved(st.shared, #[trigger] st.pending[i]) is Err {
        let i = choose|i: int|
            0 <= i < st.pending.len() && site_resolved(st.shared, #[trigger] st.pending[i]) is Err;
        if let Ok(sites) = sites_resolved(st.shared, st.pending, st.pending.len()) {
            assert(site_resolved(st.shared, st.pending[i]) == Ok::<SiteModel, Seq<char>>(sites[i]));
        }
    }
}

/// What holds where nothing is said: compression at the densest levels, for what is
/// neither tiny nor huge; every answer asked for again, but for what carries its hash
/// for a year; content in memory, two gigabytes of it at most; strict transport
/// security for two years; 64 connections from one address, and no deadline.
pub proof fn law_what_holds_by_default()
    ensures
        ({
            let d = nothing_read();
            let t = d.shared.tuning;
            let h = d.shared.headers;
            &&& t.compression && t.brotli_quality == 11 && t.gzip_level == 9
            &&& t.min_compress_bytes == 64
            &&& t.max_brotli_bytes == 8 * 1024 * 1024
            &&& t.max_gzip_bytes == 64 * 1024 * 1024
            &&& t.max_file_size == 256 * 1024 * 1024
            &&& t.max_total_bytes == 2048 * 1024 * 1024
            &&& t.cache_max_age == 0
            &&& t.immutable_max_age == 365 * 24 * 60 * 60
            &&& h.hsts_max_age == 2 * 365 * 24 * 60 * 60
            &&& h.hsts_include_subdomains && h.hsts_preload && h.csp.len() == 0
            &&& d.max_conns_per_ip == 64 && d.max_response_secs == 0
            &&& d.storage == Storage::Memory && d.disk_cache is None
            &&& d.host.len() == 0 && d.http_host.len() == 0 && d.pending.len() == 0 && d.cur is None
        }),
{
}

/// The security headers: four that are always there; strict transport security with
/// its age, and with its two extensions where they are on, unless its age is nought;
/// and the content security policy, where there is one.
pub proof fn law_what_the_security_headers_say(h: HeaderModel)
    ensures
        ({
            let always = "X-Content-Type-Options: nosniff\r\nX-Frame-Options: SAMEORIGIN\r\n"@
                + "Referrer-Policy: strict-origin-when-cross-origin\r\n"@
                + "Permissions-Policy: camera=(), microphone=(), geolocation=()\r\n"@;
            let sub = if h.hsts_include_subdomains {
                "; includeSubDomains"@
            } else {
                seq![]
            };
            let pre = if h.hsts_preload {
                "; preload"@
            } else {
                seq![]
            };
            let hsts = if h.hsts_max_age == 0 {
                seq![]
            } else {
                "Strict-Transport-Security: max-age="@ + dec_text(h.hsts_max_age as nat) + sub + pre
                    + "\r\n"@
            };
            let csp = if h.csp.len() == 0 {
                seq![]
            } else {
                "Content-Security-Policy: "@ + h.csp + "\r\n"@
            };
            security_block(h) == always + hsts + csp
        }),
{
    let always = "X-Content-Type-Options: nosniff\r\nX-Frame-Options: SAMEORIGIN\r\n"@
        + "Referrer-Policy: strict-origin-when-cross-origin\r\n"@
        + "Permissions-Policy: camera=(), microphone=(), geolocation=()\r\n"@;
    let first = "X-Content-Type-Options: nosniff\r\n"@ + "X-Frame-Options: SAMEORIGIN\r\n"@;
    assert(first =~= "X-Content-Type-Options: nosniff\r\nX-Frame-Options: SAMEORIGIN\r\n"@) by {
        reveal_strlit("X-Content-Type-Options: nosniff\r\nX-Frame-Options: SAMEORIGIN\r\n");
        reveal_strlit("X-Content-Type-Options: nosniff\r\n");
        reveal_strlit("X-Frame-Options: SAMEORIGIN\r\n");
    }
    let a = always + "Strict-Transport-Security: max-age="@ + dec_text(h.hsts_max_age as nat);
    let sub = if h.hsts_include_subdomains {
        "; includeSubDomains"@
    } else {
        seq![]
    };
    let pre = if h.hsts_preload {
        "; preload"@
    } else {
        seq![]
    };
    assert(a + seq![] =~= a);
    assert(a + sub + seq![] =~= a + sub);
    let hsts = "Strict-Transport-Security: max-age="@ + dec_text(h.hsts_max_age as nat) + sub + pre
        + "\r\n"@;
    assert(a + sub + pre + "\r\n"@ =~= always + hsts);
    assert(always + seq![] =~= always);
    assert(always + hsts + seq![] =~= always + hsts);
    let csp = "Content-Security-Policy: "@ + h.csp + "\r\n"@;
    assert(always + hsts + "Content-Security-Policy: "@ + h.csp + "\r\n"@ =~= always + hsts + csp);
    assert(always + "Content-Security-Policy: "@ + h.csp + "\r\n"@ =~= always + csp);
}

/// Names are shown with commas between them.
pub proof fn law_names_are_shown_with_commas(names: Seq<Seq<char>>)
    ensures
        comma_joined(names) == with_between(names, ','),
    decreases names.len(),
{
    reveal_strlit(",");
    if names.len() >= 2 {
        law_names_are_shown_with_commas(names.drop_last());
        lemma_between_last(names, ',');
        assert(","@ =~= seq![',']);
    } else if names.len() == 0 {
        assert(comma_joined(names) =~= with_between(names, ','));
    }
}

proof fn lemma_between_last(list: Seq<Seq<char>>, sep: char)
    requires
        list.len() >= 2,
    ensures
        with_between(list, sep) == with_between(list.drop_last(), sep) + seq![sep] + list.last(),
    decreases list.len(),
{
    let rest = list.skip(1);
    if list.len() == 2 {
        assert(rest =~= seq![list.last()]);
        assert(list.drop_last() =~= seq![list[0]]);
        reveal_with_fuel(with_between, 2);
    } else {
        lemma_between_last(rest, sep);
        assert(list.drop_last().skip(1) =~= rest.drop_last());
        assert(with_between(list, sep) =~= with_between(list.drop_last(), sep) + seq![sep]
            + list.last());
    }
}

/// A message about a value: it names the key first, and shows the value last.
pub open spec fn shows_value(e: Seq<char>, key: Seq<char>, v: Seq<char>) -> bool {
    (key + ": "@).is_prefix_of(e) && (" (got: "@ + v + ")"@).is_suffix_of(e)
}

/// A text between a key and what was got.
proof fn lemma_shows(key: Seq<char>, what: Seq<char>, v: Seq<char>, e: Seq<char>)
    requires
        what.len() >= 2 && what[0] == ':' && what[1] == ' ',
        e == key + what + (" (got: "@ + v + ")"@),
    ensures
        shows_value(e, key, v),
{
    reveal_strlit(": ");
    let first = key + ": "@;
    let last = " (got: "@ + v + ")"@;
    assert(first =~= e.subrange(0, first.len() as int));
    assert(last =~= e.subrange(e.len() - last.len(), e.len() as int));
}

/// Who reads that a value is refused reads of which key, and what it was.
pub proof fn law_bad_values_are_shown(key: Seq<char>, v: Seq<char>, lo: u32, hi: u32)
    ensures
        size_value(key, v) matches Err(e) ==> shows_value(e, key, trimmed(v)),
        count_value(key, v) matches Err(e) ==> shows_value(e, key, v),
        ranged_value(key, v, lo, hi) matches Err(e) ==> shows_value(e, key, v) || exists|n: nat|
            (n < lo || n > hi) && shows_value(e, key, #[trigger] dec_text(n)),
        header_value(key, v) matches Err(e) ==> (key + ": "@).is_prefix_of(e),
{
    reveal_strlit(": ");
    reveal_strlit(" (got: ");
    reveal_strlit(": expected a byte size like 8M or 1048576 (got: ");
    reveal_strlit(": expected a byte size like 8M or 1048576");
    reveal_strlit(": size overflows (got: ");
    reveal_strlit(": size overflows");
    reveal_strlit(": expected a non-negative integer (got: ");
    reveal_strlit(": expected a non-negative integer");
    reveal_strlit(": expected a number ");
    reveal_strlit(": must be ");
    reveal_strlit(": control characters are not allowed in a header value");
    let t = trimmed(v);
    if let Err(e) = size_value(key, v) {
        if number(trimmed(size_unit(t).0), usize::MAX as nat) is None {
            assert(e =~= key + ": expected a byte size like 8M or 1048576"@ + (" (got: "@ + t + ")"@));
            lemma_shows(key, ": expected a byte size like 8M or 1048576"@, t, e);
        } else {
            assert(e =~= key + ": size overflows"@ + (" (got: "@ + t + ")"@));
            lemma_shows(key, ": size overflows"@, t, e);
        }
    }
    if let Err(e) = count_value(key, v) {
        assert(e =~= key + ": expected a non-negative integer"@ + (" (got: "@ + v + ")"@));
        lemma_shows(key, ": expected a non-negative integer"@, v, e);
    }
    if let Err(e) = ranged_value(key, v, lo, hi) {
        let range = dec_text(lo as nat) + "-"@ + dec_text(hi as nat);
        match number(t, u32::MAX as nat) {
            None => {
                let what = ": expected a number "@ + range;
                assert(e =~= key + what + (" (got: "@ + v + ")"@));
                lemma_shows(key, what, v, e);
            },
            Some(n) => {
                let what = ": must be "@ + range;
                assert(e =~= key + what + (" (got: "@ + dec_text(n) + ")"@));
                lemma_shows(key, what, dec_text(n), e);
            },
        }
    }
    if let Err(e) = header_value(key, v) {
        let first = key + ": "@;
        assert(first =~= e.subrange(0, first.len() as int));
    }
}

/// Whatever is wrong with a line of a file, its number is said first.
pub proof fn law_errors_name_their_line(st: Reading, n: nat, raw: Seq<char>)
    ensures
        line_read(st, n, raw) matches Err(e) ==> ("config line "@ + dec_text(n)
            + ": "@).is_prefix_of(e),
{
    let first = "config line "@ + dec_text(n) + ": "@;
    assert forall|msg: Seq<char>| first.is_prefix_of(#[trigger] at_line(n, msg)) by {
        assert(first =~= at_line(n, msg).subrange(0, first.len() as int));
    }
}

} // verus!
