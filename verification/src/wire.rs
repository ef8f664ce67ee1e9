//! What goes out on the wire for an answer, and what holds of it whatever was
//! asked for.
use std::sync::Arc;

use vstd::prelude::*;
use vstd::utf8::encode_utf8;

use crate::cache::{
    body_path, brotli_form_allowed, cache_control_of, gzip_form, is_disk_entry, is_mem_entry,
    worth_compressing, Cached, DiskEntry, MemEntry, Policy, SiteCache,
};
use crate::closing::{law_closing_answers_say_so, lemma_fields_are_quiet};
use crate::compress::unbrotlied;
use crate::config::{security_block, Config, HeaderModel, SiteModel, Tuning};
use crate::config_laws::sound_site;
use crate::conn::{
    answers, fresh, in_time, in_turn, is_whole_head, joined, law_heads_are_answered_in_turn, turned,
    Event,
};
use crate::heads::{
    is_field_block, is_head_text, law_security_headers_are_whole_lines,
    law_status_pages_end_at_their_blank_line, lemma_cut_is_head,
    lemma_not_modified_is_head, lemma_ok_is_head, lemma_reasons, lemma_redirect_is_head,
    lemma_token_is_head, no_cr, up_to_blank,
};
use crate::http::{canonical_of, encoded_path, host_key_of, strictly_framed, up_to};
use crate::mime::mime_of;
use crate::redirects::{is_sound, redirect_of};
use crate::request::{
    as_head, law_head_is_read_like_get, lemma_host_no_cr, lemma_trimmed_no_cr, request_of,
    RequestModel,
};
use crate::response::{
    encoding_text, etag_text, is_status, is_variant_of, ok_front, pages_for, variant_head,
    StatusResponse,
};
use crate::serve::{
    all_bytes, challenge_reply, choice_of, closing_header, content_reply, decoded_path, disk_choice,
    disk_reply, found, lemma_location_stays_on_its_line, location_for, mem_choice, mem_reply,
    not_modified_text, origin_of, query_of, redirect_text, refusal, reply_of, site_for, site_reply,
    token_answer, token_head, Choice, FoundModel, ReplyModel, ACME_PREFIX, MAX_PATH_LEN,
};
use crate::text::{control_free, lemma_first_of, trimmed};
use crate::vhosts::{
    is_build, is_site_for, law_a_build_serves_the_configuration, page_bytes, Site, Vhosts,
    VhostsBuilder,
};

verus! {

// ------------------------------------------------------------------ the bytes

/// The first bytes of a file, or all where there are not as many.
pub open spec fn first_bytes(file: Seq<u8>, len: nat) -> Seq<u8> {
    if file.len() <= len {
        file
    } else {
        file.take(len as int)
    }
}

/// The bytes of an answer that needs no file.
pub open spec fn sent(r: ReplyModel) -> (Seq<u8>, bool) {
    match r {
        ReplyModel::Send { writes, keep_alive } => (all_bytes(writes), keep_alive),
        _ => (seq![], false),
    }
}

/// All the bytes that are written for an answer, and whether the connection is
/// kept. `token` is what was read of a challenge token, and `files` is what the
/// snapshot holds, by path.
pub open spec fn written(
    r: ReplyModel,
    sites: Seq<Site>,
    token: Option<Seq<u8>>,
    files: Map<Seq<char>, Seq<u8>>,
) -> (Seq<u8>, bool) {
    match r {
        ReplyModel::Send { .. } => sent(r),
        ReplyModel::File { head, path, len, keep_alive, missing, .. } => if files.contains_key(
            path,
        ) {
            (head + first_bytes(files[path], len as nat), keep_alive)
        } else {
            (missing, false)
        },
        ReplyModel::Token { site, keep_alive, is_head, .. } => sent(
            token_answer(token, keep_alive, is_head, sites[site as int].policy),
        ),
    }
}

/// One write is its bytes.
proof fn lemma_one_write(b: Seq<u8>)
    ensures
        all_bytes(seq![b]) == b,
{
    reveal_with_fuel(all_bytes, 2);
    assert(seq![b].drop_last() =~= seq![]);
    assert(all_bytes(seq![b]) =~= b);
}

/// Two writes are their bytes in a row.
proof fn lemma_two_writes(a: Seq<u8>, b: Seq<u8>)
    ensures
        all_bytes(seq![a, b]) == a + b,
{
    assert(seq![a, b].drop_last() =~= seq![a]);
    lemma_one_write(a);
}

// ------------------------------------------------------------ both storages

/// A snapshot holds the bodies of a file, each where its encoding has it.
pub open spec fn holds_bodies(
    files: Map<Seq<char>, Seq<u8>>,
    url: Seq<char>,
    data: Seq<u8>,
    gz: Option<Seq<u8>>,
    br: Option<Seq<u8>>,
) -> bool {
    &&& files.contains_key(body_path("identity"@, url)) && files[body_path("identity"@, url)] == data
    &&& gz matches Some(g) ==> files.contains_key(body_path("gzip"@, url)) && files[body_path(
        "gzip"@,
        url,
    )] == g
    &&& br matches Some(b) ==> files.contains_key(body_path("br"@, url)) && files[body_path(
        "br"@,
        url,
    )] == b
}

/// What two runs of the brotli encoder kept of one file makes no difference to a
/// client: they kept the same, or both kept something that the client does not get.
pub open spec fn alike_to(
    brm: Option<Seq<u8>>,
    brd: Option<Seq<u8>>,
    accept_enc: Seq<char>,
    has_gzip: bool,
) -> bool {
    brm == brd || (brm is Some && brd is Some && choice_of(accept_enc, true, has_gzip)
        != Choice::Br)
}

/// A file is compressed with brotli, as far as its type and its size go.
pub open spec fn brotli_applies(mime: Seq<char>, data: Seq<u8>, t: Tuning) -> bool {
    worth_compressing(mime, data, t) && data.len() <= t.max_brotli_bytes
}

/// Where a body is kept does not show on the wire: a file is answered with the same
/// bytes from memory and from an intact snapshot, and the connection is kept or not
/// alike. `m` and `d` are entries made of the file, each with a run of the encoders
/// of its own. The gzip forms of two runs are the same; of a file that brotli
/// applies to, two runs of its encoder may keep different streams, and a client
/// that gets such a stream is left out.
pub proof fn law_both_storages_send_the_same_bytes(
    m: MemEntry,
    d: DiskEntry,
    url: Seq<char>,
    mime: Seq<char>,
    data: Seq<u8>,
    brd: Option<Seq<u8>>,
    pm: Policy,
    pd: Policy,
    files: Map<Seq<char>, Seq<u8>>,
    accept_enc: Seq<char>,
    inm: Seq<char>,
    keep_alive: bool,
    is_head: bool,
    site: usize,
    sites: Seq<Site>,
    token: Option<Seq<u8>>,
)
    requires
        is_mem_entry(m, url, mime, data, gzip_form(mime, data, pm.t), m.br_body(), pm),
        brotli_form_allowed(mime, data, pm.t, m.br_body()),
        is_disk_entry(d, url, mime, data, gzip_form(mime, data, pd.t), brd, pd),
        brotli_form_allowed(mime, data, pd.t, brd),
        pm.t == pd.t,
        pm.security_headers@ == pd.security_headers@,
        holds_bodies(files, url, data, gzip_form(mime, data, pd.t), brd),
        brotli_applies(mime, data, pm.t) ==> alike_to(
            m.br_body(),
            brd,
            accept_enc,
            m.gzip is Some,
        ),
    ensures
        written(
            mem_reply(m, accept_enc, inm, keep_alive, is_head, pm.security_headers@),
            sites,
            token,
            files,
        ) == written(
            disk_reply(d, accept_enc, inm, keep_alive, is_head, site, pd),
            sites,
            token,
            files,
        ),
{
    assert(alike_to(m.br_body(), brd, accept_enc, m.gzip is Some));
    let v = mem_choice(m, accept_enc);
    let w = disk_choice(d, accept_enc);
    let body = v.body();
    assert(v.head() =~= w.header_ka@);
    assert(v.full_ka@ =~= v.head() + body);
    assert(files.contains_key(w.path@) && files[w.path@] == body);
    assert(w.len == body.len());
    assert(first_bytes(files[w.path@], w.len as nat) =~= body);
    assert(v.etag@ == w.etag@);
    assert(encoding_text(v.encoding) == encoding_text(w.encoding));
    let head = if keep_alive {
        v.head()
    } else {
        closing_header(v.head())
    };
    lemma_one_write(v.full_ka@);
    lemma_one_write(head);
    lemma_two_writes(head, body);
}

/// Also where two runs of the brotli encoder kept different streams, both storages
/// answer with the same file: whatever body a client gets of either decodes to it,
/// and all that a client without brotli gets is a form that both have.
pub proof fn law_both_storages_hold_the_same_file(
    m: MemEntry,
    d: DiskEntry,
    url: Seq<char>,
    mime: Seq<char>,
    data: Seq<u8>,
    brd: Option<Seq<u8>>,
    pm: Policy,
    pd: Policy,
    files: Map<Seq<char>, Seq<u8>>,
)
    requires
        is_mem_entry(m, url, mime, data, gzip_form(mime, data, pm.t), m.br_body(), pm),
        brotli_form_allowed(mime, data, pm.t, m.br_body()),
        is_disk_entry(d, url, mime, data, gzip_form(mime, data, pd.t), brd, pd),
        brotli_form_allowed(mime, data, pd.t, brd),
        pm.t == pd.t,
        holds_bodies(files, url, data, gzip_form(mime, data, pd.t), brd),
    ensures
        m.identity.body() == data && files[d.identity.path@] == data,
        m.gzip is Some <==> d.gzip is Some,
        m.gzip matches Some(v) ==> v.body() == files[d.gzip->0.path@],
        m.br matches Some(v) ==> unbrotlied(v.body()) == Some(data),
        d.br matches Some(v) ==> unbrotlied(files[v.path@]) == Some(data),
        !brotli_applies(mime, data, pm.t) ==> m.br is None && d.br is None,
{
}

// ------------------------------------------------------------- HEAD and GET

/// One answer is another cut off at its first blank line, and leaves the
/// connection as the other does.
pub open spec fn is_cut_of(h: (Seq<u8>, bool), g: (Seq<u8>, bool)) -> bool {
    h.0 == up_to_blank(g.0) && h.1 == g.1
}

/// An entry that was made of a file under a policy.
pub open spec fn is_made(c: Cached, p: Policy) -> bool {
    match c {
        Cached::Mem(e) => exists|
            url: Seq<char>,
            data: Seq<u8>,
            gz: Option<Seq<u8>>,
            br: Option<Seq<u8>>,
        | #[trigger] is_mem_entry(e, url, mime_of(url), data, gz, br, p),
        Cached::Disk(e) => exists|
            url: Seq<char>,
            data: Seq<u8>,
            gz: Option<Seq<u8>>,
            br: Option<Seq<u8>>,
        | #[trigger] is_disk_entry(e, url, mime_of(url), data, gz, br, p),
    }
}

/// A host table whose headers break no lines but their own: the security headers
/// are whole lines, the rules are sound and the ports stay on their line.
pub open spec fn is_sound_table(v: Vhosts) -> bool {
    &&& v.wf()
    &&& exists|security: Seq<char>|
        is_field_block(security) && #[trigger] pages_for(v.errors, security)
    &&& forall|i: int|
        0 <= i < v.sites@.len() ==> is_field_block(
            (#[trigger] v.sites@[i]).policy.security_headers@,
        ) && is_sound(v.sites@[i].redirects@)
    &&& no_cr(v.http_port@)
    &&& no_cr(v.https_port@)
}

/// An answer that is a header block is its own cut.
proof fn lemma_head_alone(text: Seq<char>, keep_alive: bool)
    requires
        is_head_text(text),
    ensures
        is_cut_of((encode_utf8(text), keep_alive), (encode_utf8(text), keep_alive)),
        all_bytes(seq![encode_utf8(text)]) == encode_utf8(text),
{
    lemma_cut_is_head(text, seq![]);
    assert(encode_utf8(text) + Seq::<u8>::empty() =~= encode_utf8(text));
    lemma_one_write(encode_utf8(text));
}

/// A header block is the cut of itself with a body behind it.
proof fn lemma_head_and_body(text: Seq<char>, body: Seq<u8>, keep_alive: bool)
    requires
        is_head_text(text),
    ensures
        is_cut_of((encode_utf8(text), keep_alive), (encode_utf8(text) + body, keep_alive)),
        all_bytes(seq![encode_utf8(text)]) == encode_utf8(text),
        all_bytes(seq![encode_utf8(text) + body]) == encode_utf8(text) + body,
        all_bytes(seq![encode_utf8(text), body]) == encode_utf8(text) + body,
{
    lemma_cut_is_head(text, body);
    lemma_one_write(encode_utf8(text));
    lemma_one_write(encode_utf8(text) + body);
    lemma_two_writes(encode_utf8(text), body);
}

/// The refusal of a HEAD is that of a GET, cut.
proof fn lemma_refusal_cut(
    page: StatusResponse,
    code: u16,
    reason: Seq<char>,
    security: Seq<char>,
    keep_alive: bool,
)
    requires
        is_status(page, code, reason, security),
        no_cr(reason),
        is_field_block(security),
    ensures
        is_cut_of(sent(refusal(page, keep_alive, true)), sent(refusal(page, keep_alive, false))),
{
    let _ = law_status_pages_end_at_their_blank_line(page, code, reason, security, keep_alive);
    lemma_one_write(page.wire(keep_alive, true));
    lemma_one_write(page.wire(keep_alive, false));
}

/// What an answer to a file is made of: its headers are header blocks, on a kept
/// connection and on a closing one, and so is the 304.
proof fn lemma_file_heads(
    url: Seq<char>,
    body: Seq<u8>,
    encoding: Option<Seq<char>>,
    vary: bool,
    p: Policy,
    keep_alive: bool,
    any_vary: bool,
) -> (closing: Seq<char>)
    requires
        encoding == None::<Seq<char>> || encoding == Some("gzip"@) || encoding == Some("br"@),
        is_field_block(p.security_headers@),
    ensures
        ({
            let cc = cache_control_of(p.t, url);
            let sec = p.security_headers@;
            let head = variant_head(mime_of(url), body, encoding, vary, cc, sec);
            &&& is_head_text(head)
            &&& is_head_text(closing)
            &&& closing_header(encode_utf8(head)) == encode_utf8(closing)
            &&& is_head_text(
                not_modified_text(etag_text(body), encoding, any_vary, cc, keep_alive, sec),
            )
        }),
{
    let mime = mime_of(url);
    let cc = cache_control_of(p.t, url);
    let sec = p.security_headers@;
    let etag = etag_text(body);
    lemma_fields_are_quiet(url, body, p.t);
    lemma_ok_is_head(mime, body.len(), etag, encoding, vary, cc, sec);
    law_closing_answers_say_so(url, body, encoding, vary, p);
    lemma_not_modified_is_head(etag, encoding, any_vary, cc, keep_alive, sec);
    ok_front(mime, body.len(), etag, encoding, vary, cc) + "Connection: close\r\n"@ + sec + "\r\n"@
}

/// A HEAD on a file in memory.
proof fn lemma_mem_cut(
    e: MemEntry,
    url: Seq<char>,
    data: Seq<u8>,
    gz: Option<Seq<u8>>,
    br: Option<Seq<u8>>,
    p: Policy,
    accept_enc: Seq<char>,
    inm: Seq<char>,
    keep_alive: bool,
)
    requires
        is_mem_entry(e, url, mime_of(url), data, gz, br, p),
        is_field_block(p.security_headers@),
    ensures
        is_cut_of(
            sent(mem_reply(e, accept_enc, inm, keep_alive, true, p.security_headers@)),
            sent(mem_reply(e, accept_enc, inm, keep_alive, false, p.security_headers@)),
        ),
        mem_reply(e, accept_enc, inm, keep_alive, true, p.security_headers@) is Send,
        mem_reply(e, accept_enc, inm, keep_alive, false, p.security_headers@) is Send,
{
    let v = mem_choice(e, accept_enc);
    let body = v.body();
    let encoding = encoding_text(v.encoding);
    let vary = if encoding is None {
        e.vary
    } else {
        true
    };
    let cc = cache_control_of(p.t, url);
    let sec = p.security_headers@;
    let closing = lemma_file_heads(url, body, encoding, vary, p, keep_alive, e.vary);
    let head = variant_head(mime_of(url), body, encoding, vary, cc, sec);
    assert(is_variant_of(v, mime_of(url), body, encoding, vary, cc, sec));
    assert(v.head() =~= encode_utf8(head));
    assert(v.full_ka@ =~= encode_utf8(head) + body);
    lemma_head_and_body(head, body, true);
    lemma_head_and_body(closing, body, false);
    lemma_head_alone(
        not_modified_text(etag_text(body), encoding, e.vary, cc, keep_alive, sec),
        keep_alive,
    );
}

/// A HEAD on a file on disk.
proof fn lemma_disk_cut(
    e: DiskEntry,
    url: Seq<char>,
    data: Seq<u8>,
    gz: Option<Seq<u8>>,
    br: Option<Seq<u8>>,
    p: Policy,
    accept_enc: Seq<char>,
    inm: Seq<char>,
    keep_alive: bool,
    site: usize,
    sites: Seq<Site>,
    token: Option<Seq<u8>>,
    files: Map<Seq<char>, Seq<u8>>,
)
    requires
        is_disk_entry(e, url, mime_of(url), data, gz, br, p),
        is_field_block(p.security_headers@),
        disk_reply(e, accept_enc, inm, keep_alive, false, site, p) matches ReplyModel::File {
            path,
            ..
        } ==> files.contains_key(path),
    ensures
        is_cut_of(
            written(
                disk_reply(e, accept_enc, inm, keep_alive, true, site, p),
                sites,
                token,
                files,
            ),
            written(
                disk_reply(e, accept_enc, inm, keep_alive, false, site, p),
                sites,
                token,
                files,
            ),
        ),
{
    let v = disk_choice(e, accept_enc);
    let encoding = encoding_text(v.encoding);
    let body = match encoding {
        None => data,
        Some(_) => if e.br is Some && v == e.br->0 && encoding == Some("br"@) {
            br->0
        } else {
            gz->0
        },
    };
    let vary = if encoding is None {
        e.vary
    } else {
        true
    };
    let cc = cache_control_of(p.t, url);
    let sec = p.security_headers@;
    reveal_strlit("gzip");
    reveal_strlit("br");
    assert("gzip"@.len() != "br"@.len());
    let head = variant_head(mime_of(url), body, encoding, vary, cc, sec);
    assert(v.header_ka@ == encode_utf8(head));
    assert(v.etag@ == etag_text(body));
    let closing = lemma_file_heads(url, body, encoding, vary, p, keep_alive, e.vary);
    let file = first_bytes(files[v.path@], v.len as nat);
    lemma_head_and_body(head, file, true);
    lemma_head_and_body(closing, file, false);
    lemma_head_alone(
        not_modified_text(etag_text(body), encoding, e.vary, cc, keep_alive, sec),
        keep_alive,
    );
}

/// A HEAD on the challenge prefix.
proof fn lemma_challenge_cut(
    rest: Seq<char>,
    site_index: usize,
    sites: Seq<Site>,
    keep_alive: bool,
    token: Option<Seq<u8>>,
    files: Map<Seq<char>, Seq<u8>>,
)
    requires
        0 <= site_index < sites.len(),
        sites[site_index as int].policy.wf(),
        is_field_block(sites[site_index as int].policy.security_headers@),
    ensures
        ({
            let site = sites[site_index as int];
            is_cut_of(
                written(
                    challenge_reply(rest, site_index, site, keep_alive, true),
                    sites,
                    token,
                    files,
                ),
                written(
                    challenge_reply(rest, site_index, site, keep_alive, false),
                    sites,
                    token,
                    files,
                ),
            )
        }),
{
    let policy = sites[site_index as int].policy;
    lemma_reasons();
    lemma_refusal_cut(
        policy.errors.not_found,
        404,
        "Not Found"@,
        policy.security_headers@,
        keep_alive,
    );
    if let Some(b) = token {
        let text = token_head(b.len(), keep_alive, policy.security_headers@);
        lemma_token_is_head(b.len(), keep_alive, policy.security_headers@);
        lemma_head_and_body(text, b, keep_alive);
    }
}

/// A HEAD on content.
proof fn lemma_content_cut(
    site_index: usize,
    sites: Seq<Site>,
    cache: Map<Seq<char>, Cached>,
    decoded: Seq<char>,
    origin: Seq<char>,
    query: Seq<char>,
    rq: RequestModel,
    keep_alive: bool,
    token: Option<Seq<u8>>,
    files: Map<Seq<char>, Seq<u8>>,
)
    requires
        0 <= site_index < sites.len(),
        sites[site_index as int].policy.wf(),
        is_field_block(sites[site_index as int].policy.security_headers@),
        forall|k: Seq<char>| #[trigger]
            cache.contains_key(k) ==> is_made(cache[k], sites[site_index as int].policy),
        !rq.is_head,
        found(cache, decoded) == Some(FoundModel::DirIndex) ==> no_cr(
            origin + encoded_path(encode_utf8(decoded)) + "/"@ + query,
        ),
        content_reply(
            site_index,
            sites[site_index as int],
            cache,
            decoded,
            origin,
            query,
            rq,
            keep_alive,
        ) matches ReplyModel::File { path, .. } ==> files.contains_key(path),
    ensures
        ({
            let site = sites[site_index as int];
            is_cut_of(
                written(
                    content_reply(
                        site_index,
                        site,
                        cache,
                        decoded,
                        origin,
                        query,
                        as_head(rq),
                        keep_alive,
                    ),
                    sites,
                    token,
                    files,
                ),
                written(
                    content_reply(
                        site_index,
                        site,
                        cache,
                        decoded,
                        origin,
                        query,
                        rq,
                        keep_alive,
                    ),
                    sites,
                    token,
                    files,
                ),
            )
        }),
{
    let p = sites[site_index as int].policy;
    let sec = p.security_headers@;
    match found(cache, decoded) {
        None => {
            lemma_reasons();
            lemma_refusal_cut(p.errors.not_found, 404, "Not Found"@, sec, keep_alive);
        },
        Some(FoundModel::DirIndex) => {
            let location = origin + encoded_path(encode_utf8(decoded)) + "/"@ + query;
            lemma_redirect_is_head(location, keep_alive, sec);
            lemma_head_alone(redirect_text(location, keep_alive, sec), keep_alive);
        },
        Some(FoundModel::Entry(k)) => {
            assert(cache.contains_key(k));
            assert(is_made(cache[k], p));
            match cache[k] {
                Cached::Mem(e) => {
                    let (url, data, gz, br) = choose|
                        url: Seq<char>,
                        data: Seq<u8>,
                        gz: Option<Seq<u8>>,
                        br: Option<Seq<u8>>,
                    | #[trigger] is_mem_entry(e, url, mime_of(url), data, gz, br, p);
                    lemma_mem_cut(e, url, data, gz, br, p, rq.accept_enc, rq.inm, keep_alive);
                },
                Cached::Disk(e) => {
                    let (url, data, gz, br) = choose|
                        url: Seq<char>,
                        data: Seq<u8>,
                        gz: Option<Seq<u8>>,
                        br: Option<Seq<u8>>,
                    | #[trigger] is_disk_entry(e, url, mime_of(url), data, gz, br, p);
                    lemma_disk_cut(
                        e,
                        url,
                        data,
                        gz,
                        br,
                        p,
                        rq.accept_enc,
                        rq.inm,
                        keep_alive,
                        site_index,
                        sites,
                        token,
                        files,
                    );
                },
            }
        },
    }
}

/// A HEAD on a site.
proof fn lemma_site_cut(
    v: Vhosts,
    site_index: usize,
    cache: Map<Seq<char>, Cached>,
    host: Seq<char>,
    rq: RequestModel,
    keep_alive: bool,
    plain: bool,
    token: Option<Seq<u8>>,
    files: Map<Seq<char>, Seq<u8>>,
)
    requires
        is_sound_table(v),
        0 <= site_index < v.sites@.len(),
        no_cr(host),
        control_free(rq.target),
        rq.is_get,
        !rq.is_head,
        forall|k: Seq<char>| #[trigger]
            cache.contains_key(k) ==> is_made(cache[k], v.sites@[site_index as int].policy),
        site_reply(v, site_index, cache, host, rq, keep_alive, plain) matches ReplyModel::File {
            path,
            ..
        } ==> files.contains_key(path),
    ensures
        is_cut_of(
            written(
                site_reply(v, site_index, cache, host, as_head(rq), keep_alive, plain),
                v.sites@,
                token,
                files,
            ),
            written(
                site_reply(v, site_index, cache, host, rq, keep_alive, plain),
                v.sites@,
                token,
                files,
            ),
        ),
{
    let site = v.sites@[site_index as int];
    let p = site.policy;
    let sec = p.security_headers@;
    let path = up_to(rq.target, '?');
    assert(p.wf());
    lemma_reasons();
    lemma_refusal_cut(p.errors.bad_request, 400, "Bad Request"@, sec, false);
    if let Some(decoded) = decoded_path(path) {
        let query = query_of(rq.target);
        let origin = origin_of(v, site, host, plain);
        lemma_location_stays_on_its_line(v, site, cache, host, rq.target, decoded, plain);
        if ACME_PREFIX@.is_prefix_of(decoded) {
            lemma_challenge_cut(
                decoded.skip(ACME_PREFIX@.len() as int),
                site_index,
                v.sites@,
                keep_alive,
                token,
                files,
            );
        } else if redirect_of(site.redirects@, path) is Some || (site.canonical_urls
            && canonical_of(decoded) is Some) || (plain && site.force_ssl) {
            let location = location_for(v, site, cache, host, rq.target, decoded, plain)->0;
            lemma_redirect_is_head(location, keep_alive, sec);
            lemma_head_alone(redirect_text(location, keep_alive, sec), keep_alive);
        } else if path.len() > 0 && path[0] == '/' && encode_utf8(path).len() < MAX_PATH_LEN {
            lemma_content_cut(
                site_index,
                v.sites@,
                cache,
                decoded,
                origin,
                query,
                rq,
                keep_alive,
                token,
                files,
            );
        }
    }
}

/// A host name as it is looked up stays on its line, where the header did.
proof fn lemma_host_key_no_cr(h: Seq<char>)
    requires
        no_cr(h),
    ensures
        no_cr(host_key_of(h)),
{
    lemma_trimmed_no_cr(h);
    let t = trimmed(h);
    lemma_first_of(t, ':');
    let rest = t.skip(1);
    lemma_first_of(rest, ']');
}

/// A HEAD is answered like the GET, without the body: the same status, the same
/// headers, the length that the body would have among them, up to the blank line
/// and no further; and it leaves the connection as the GET does. That holds of
/// every answer, whatever the rest of the head says, provided that the files that
/// the GET is answered from are there.
pub proof fn law_head_is_get_cut_at_the_blank_line(
    rest: Seq<char>,
    v: Vhosts,
    caches: Seq<Arc<SiteCache>>,
    want_ka: bool,
    plain: bool,
    sni: Option<Seq<char>>,
    token: Option<Seq<u8>>,
    files: Map<Seq<char>, Seq<u8>>,
)
    requires
        strictly_framed(encode_utf8("GET "@ + rest)),
        is_sound_table(v),
        caches.len() == v.sites@.len(),
        forall|i: int, k: Seq<char>|
            0 <= i < caches.len() && #[trigger] caches[i]@.contains_key(k) ==> is_made(
                caches[i]@[k],
                v.sites@[i].policy,
            ),
        match reply_of(encode_utf8("GET "@ + rest), v, caches, want_ka, plain, sni) {
            ReplyModel::File { path, .. } => files.contains_key(path),
            _ => true,
        },
    ensures
        is_cut_of(
            written(
                reply_of(encode_utf8("HEAD "@ + rest), v, caches, want_ka, plain, sni),
                v.sites@,
                token,
                files,
            ),
            written(
                reply_of(encode_utf8("GET "@ + rest), v, caches, want_ka, plain, sni),
                v.sites@,
                token,
                files,
            ),
        ),
{
    let g = encode_utf8("GET "@ + rest);
    law_head_is_read_like_get(rest);
    lemma_host_no_cr(g);
    let security = choose|security: Seq<char>|
        is_field_block(security) && #[trigger] pages_for(v.errors, security);
    lemma_reasons();
    match request_of(g) {
        Err(_) => {
            lemma_refusal_cut(v.errors.bad_request, 400, "Bad Request"@, security, false);
        },
        Ok(rq) => {
            let keep_alive = rq.keep_alive && want_ka;
            let host = host_key_of(rq.host);
            lemma_host_key_no_cr(rq.host);
            match site_for(v, host, sni) {
                None => {
                    lemma_refusal_cut(v.errors.not_found, 404, "Not Found"@, security, keep_alive);
                },
                Some(i) => {
                    assert(v.names@.contains_key(host));
                    lemma_site_cut(
                        v,
                        i,
                        caches[i as int]@,
                        host,
                        rq,
                        keep_alive,
                        plain,
                        token,
                        files,
                    );
                },
            }
        },
    }
}

/// A table with no sites yet is sound, where the content security policy and the
/// ports bring in no line break.
pub proof fn law_empty_tables_are_sound(v: Vhosts, headers: HeaderModel)
    requires
        v.wf(),
        pages_for(v.errors, security_block(headers)),
        v.sites@.len() == 0,
        control_free(headers.csp),
        no_cr(v.http_port@),
        no_cr(v.https_port@),
    ensures
        is_sound_table(v),
{
    law_security_headers_are_whole_lines(headers);
}

/// Entering a site of a configuration that parses keeps a table sound.
pub proof fn law_entering_sites_keeps_tables_sound(
    before: Vhosts,
    after: Vhosts,
    s: SiteModel,
    root: Option<String>,
    policy: Policy,
)
    requires
        is_sound_table(before),
        sound_site(s),
        policy.security_headers@ == security_block(s.headers),
        after.wf(),
        after.errors == before.errors,
        after.http_port == before.http_port,
        after.https_port == before.https_port,
        after.sites@.len() == before.sites@.len() + 1,
        after.sites@.drop_last() == before.sites@,
        is_site_for(after.sites@.last(), s, root, policy),
    ensures
        is_sound_table(after),
{
    law_security_headers_are_whole_lines(s.headers);
    assert forall|i: int| 0 <= i < after.sites@.len() implies is_field_block(
        (#[trigger] after.sites@[i]).policy.security_headers@,
    ) && is_sound(after.sites@[i].redirects@) by {
        if i < before.sites@.len() {
            assert(after.sites@[i] == after.sites@.drop_last()[i]);
            assert(after.sites@[i] == before.sites@[i]);
        } else {
            assert(after.sites@[i] == after.sites@.last());
        }
    }
}

/// The table of a whole configuration that parses is sound.
pub proof fn law_built_tables_are_sound(
    cfg: Config,
    builders: Seq<VhostsBuilder>,
    opens: Seq<VhostsBuilder>,
    roots: Seq<Option<String>>,
    policies: Seq<Policy>,
    totals: Seq<usize>,
)
    requires
        is_build(cfg, builders, opens, roots, policies, totals),
        is_sound_table(builders[0].vhosts),
        builders[0].vhosts.names@ == Map::<Seq<char>, usize>::empty(),
        builders[0].vhosts.sites@ == Seq::<Site>::empty(),
        page_bytes(builders[0].vhosts) <= builders[0].total,
        cfg.sites@.len() > 0,
        forall|i: int| 0 <= i < cfg.sites@.len() ==> sound_site((#[trigger] cfg.sites@[i])@),
    ensures
        is_sound_table(builders.last().vhosts),
{
    assert forall|i: int| 0 <= i < cfg.sites@.len() implies (
    #[trigger] cfg.sites@[i]).hosts@.len() > 0 by {
        assert(sound_site(cfg.sites@[i]@));
    }
    law_a_build_serves_the_configuration(cfg, builders, opens, roots, policies, totals);
    let built = builders.last().vhosts;
    assert forall|i: int| 0 <= i < built.sites@.len() implies is_field_block(
        (#[trigger] built.sites@[i]).policy.security_headers@,
    ) && is_sound(built.sites@[i].redirects@) by {
        assert(sound_site(cfg.sites@[i]@));
        assert(policies[i].security_headers@ == security_block(cfg.sites@[i].headers@));
        law_security_headers_are_whole_lines(cfg.sites@[i].headers@);
    }
}

// ----------------------------------------------------------- whole connections

/// What is written for one head, and whether the connection is kept.
pub open spec fn answer_to(
    v: Vhosts,
    caches: Seq<Arc<SiteCache>>,
    plain: bool,
    sni: Option<Seq<char>>,
    token: Option<Seq<u8>>,
    files: Map<Seq<char>, Seq<u8>>,
    head: Seq<u8>,
    want_ka: bool,
) -> (Seq<u8>, bool) {
    written(reply_of(head, v, caches, want_ka, plain, sni), v.sites@, token, files)
}

/// Whether an answer keeps the connection.
pub open spec fn keeps(
    v: Vhosts,
    caches: Seq<Arc<SiteCache>>,
    plain: bool,
    sni: Option<Seq<char>>,
    token: Option<Seq<u8>>,
    files: Map<Seq<char>, Seq<u8>>,
) -> spec_fn(Seq<u8>, bool) -> bool {
    |head: Seq<u8>, want_ka: bool|
        answer_to(v, caches, plain, sni, token, files, head, want_ka).1
}

/// What is written for some heads, one after the other.
pub open spec fn answers_to(
    v: Vhosts,
    caches: Seq<Arc<SiteCache>>,
    plain: bool,
    sni: Option<Seq<char>>,
    token: Option<Seq<u8>>,
    files: Map<Seq<char>, Seq<u8>>,
    asked: Seq<(Seq<u8>, bool)>,
) -> Seq<u8>
    decreases asked.len(),
{
    if asked.len() == 0 {
        seq![]
    } else {
        answer_to(v, caches, plain, sni, token, files, asked[0].0, asked[0].1).0 + answers_to(
            v,
            caches,
            plain,
            sni,
            token,
            files,
            asked.skip(1),
        )
    }
}

/// A connection sends the answers to its requests, in their order and each once,
/// however the reads cut the requests, and stops behind the first that closes it
/// or that is its last. Without any input nothing is sent.
pub proof fn law_a_connection_sends_its_answers_in_turn(
    buf: Seq<u8>,
    reads: Seq<Seq<u8>>,
    heads: Seq<Seq<u8>>,
    deadline: u64,
    clock: spec_fn(nat) -> u64,
    v: Vhosts,
    caches: Seq<Arc<SiteCache>>,
    plain: bool,
    sni: Option<Seq<char>>,
    token: Option<Seq<u8>>,
    files: Map<Seq<char>, Seq<u8>>,
)
    requires
        buf + joined(reads) == joined(heads),
        forall|i: int| 0 <= i < heads.len() ==> is_whole_head(#[trigger] heads[i]),
        clock(0) < deadline,
        ({
            let (c, action) = turned(fresh(buf, deadline), Event::Start, clock(0));
            in_time(
                c,
                action,
                reads,
                keeps(v, caches, plain, sni, token, files),
                clock,
                1,
            )
        }),
    ensures
        ({
            let kept = keeps(v, caches, plain, sni, token, files);
            let (c, action) = turned(fresh(buf, deadline), Event::Start, clock(0));
            let out = answers_to(
                v,
                caches,
                plain,
                sni,
                token,
                files,
                answers(c, action, reads, kept, clock, 1),
            );
            &&& out == answers_to(v, caches, plain, sni, token, files, in_turn(heads, 0, kept))
            &&& heads.len() == 0 ==> out == Seq::<u8>::empty()
        }),
{
    law_heads_are_answered_in_turn(
        buf,
        reads,
        heads,
        deadline,
        keeps(v, caches, plain, sni, token, files),
        clock,
    );
}

} // verus!
