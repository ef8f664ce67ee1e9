//! What closing a connection changes in the header of a 200: its `Connection`
//! field, and nothing else.
use vstd::prelude::*;
use vstd::utf8::{encode_utf8, is_ascii_chars, is_ascii_chars_encode_utf8};

use crate::cache::{cache_control_of, Policy};
use crate::config::Tuning;
use crate::heads::{lemma_run_behind, no_cr};
use crate::mime::{mime_of, mime_of_ext};
use crate::response::{etag_text, mixed_bytes, ok_front, ok_head, variant_head, FNV_OFFSET};
use crate::serve::closing_header;
use crate::text::{
    dec_text, first_run, hex_text, lemma_encode_concat, lemma_first_run_from, lowered, rcut,
};

verus! {

/// Whether a text is ASCII and holds no capital C.
pub open spec fn is_quiet(s: Seq<char>) -> bool {
    is_ascii_chars(s) && forall|i: int| 0 <= i < s.len() ==> #[trigger] s[i] != 'C'
}

/// Whether a text is quiet and stays on its line.
pub open spec fn is_field_text(s: Seq<char>) -> bool {
    is_quiet(s) && no_cr(s)
}

/// Whether a text is ASCII and no `Connection` can start in it: a capital C is
/// followed by three more characters, which are not those of that word.
spec fn is_calm(s: Seq<char>) -> bool {
    is_ascii_chars(s) && forall|i: int|
        0 <= i < s.len() && #[trigger] s[i] == 'C' ==> i + 3 < s.len() && !(s[i + 1] == 'o' && s[i
            + 2] == 'n' && s[i + 3] == 'n')
}

/// Calm texts in a row are calm.
proof fn lemma_calm_concat(a: Seq<char>, b: Seq<char>)
    requires
        is_calm(a),
        is_calm(b),
    ensures
        is_calm(a + b),
{
    let s = a + b;
    assert forall|i: int| 0 <= i < s.len() implies '\0' <= #[trigger] s[i] <= '\u{7f}' by {
        if i < a.len() {
            assert(s[i] == a[i]);
        } else {
            assert(s[i] == b[i - a.len()]);
        }
    }
    assert forall|i: int| 0 <= i < s.len() && #[trigger] s[i] == 'C' implies i + 3 < s.len() && !(
    s[i + 1] == 'o' && s[i + 2] == 'n' && s[i + 3] == 'n') by {
        if i < a.len() {
            assert(s[i] == a[i]);
            assert(s[i + 1] == a[i + 1] && s[i + 2] == a[i + 2] && s[i + 3] == a[i + 3]);
        } else {
            let j = i - a.len();
            assert(s[i] == b[j]);
            assert(s[i + 1] == b[j + 1] && s[i + 2] == b[j + 2] && s[i + 3] == b[j + 3]);
        }
    }
}

/// The fixed parts of a header are calm.
proof fn lemma_fixed_parts_are_calm()
    ensures
        is_calm("HTTP/1.1 200 OK\r\nContent-Type: "@),
        is_calm("\r\nContent-Length: "@),
        is_calm("\r\nETag: \""@),
        is_calm("\"\r\n"@),
        is_calm("Content-Encoding: "@),
        is_calm("\r\n"@),
        is_calm("Vary: Accept-Encoding\r\n"@),
        is_calm("Cache-Control: "@),
{
    reveal_strlit("HTTP/1.1 200 OK\r\nContent-Type: ");
    reveal_strlit("\r\nContent-Length: ");
    reveal_strlit("\r\nETag: \"");
    reveal_strlit("\"\r\n");
    reveal_strlit("Content-Encoding: ");
    reveal_strlit("\r\n");
    reveal_strlit("Vary: Accept-Encoding\r\n");
    reveal_strlit("Cache-Control: ");
}

/// The part of a header before its `Connection` field is calm.
proof fn lemma_front_is_calm(
    mime: Seq<char>,
    body_len: nat,
    etag: Seq<char>,
    encoding: Option<Seq<char>>,
    vary: bool,
    cache_control: Seq<char>,
)
    requires
        is_quiet(mime),
        is_quiet(etag),
        encoding matches Some(e) ==> is_quiet(e),
        is_quiet(cache_control),
    ensures
        is_calm(ok_front(mime, body_len, etag, encoding, vary, cache_control)),
{
    lemma_fixed_parts_are_calm();
    lemma_numbers_are_quiet(body_len);
    let a = "HTTP/1.1 200 OK\r\nContent-Type: "@;
    lemma_calm_concat(a, mime);
    let a = a + mime;
    lemma_calm_concat(a, "\r\nContent-Length: "@);
    let a = a + "\r\nContent-Length: "@;
    lemma_calm_concat(a, dec_text(body_len));
    let a = a + dec_text(body_len);
    lemma_calm_concat(a, "\r\nETag: \""@);
    let a = a + "\r\nETag: \""@;
    lemma_calm_concat(a, etag);
    let a = a + etag;
    lemma_calm_concat(a, "\"\r\n"@);
    let a = a + "\"\r\n"@;
    let b = match encoding {
        Some(e) => {
            lemma_calm_concat(a, "Content-Encoding: "@);
            lemma_calm_concat(a + "Content-Encoding: "@, e);
            lemma_calm_concat(a + "Content-Encoding: "@ + e, "\r\n"@);
            a + "Content-Encoding: "@ + e + "\r\n"@
        },
        None => a,
    };
    let c = if vary {
        lemma_calm_concat(b, "Vary: Accept-Encoding\r\n"@);
        b + "Vary: Accept-Encoding\r\n"@
    } else {
        b
    };
    lemma_calm_concat(c, "Cache-Control: "@);
    lemma_calm_concat(c + "Cache-Control: "@, cache_control);
    lemma_calm_concat(c + "Cache-Control: "@ + cache_control, "\r\n"@);
}

/// Digits are quiet, on one line.
proof fn lemma_numbers_are_quiet(n: nat)
    ensures
        is_field_text(dec_text(n)),
    decreases n,
{
    if n >= 10 {
        lemma_numbers_are_quiet(n / 10);
    }
}

/// Hexadecimal digits are.
proof fn lemma_hex_is_field_text(n: nat)
    ensures
        is_field_text(hex_text(n)),
    decreases n,
{
    if n >= 16 {
        lemma_hex_is_field_text(n / 16);
    }
}

/// Quiet texts in a row are quiet, and stay on their line.
proof fn lemma_quiet_concat(a: Seq<char>, b: Seq<char>)
    requires
        is_field_text(a),
        is_field_text(b),
    ensures
        is_field_text(a + b),
{
    let s = a + b;
    assert forall|i: int| 0 <= i < s.len() implies '\0' <= #[trigger] s[i] <= '\u{7f}' && s[i]
        != 'C' && s[i] != '\r' by {
        if i < a.len() {
            assert(s[i] == a[i]);
        } else {
            assert(s[i] == b[i - a.len()]);
        }
    }
}

/// Closing changes the first `Connection` field that says `keep-alive`. Where the
/// fields before it are quiet, that is the server's own, so that the header is
/// the one with `Connection: close` in its place.
pub proof fn law_closing_changes_one_field(
    mime: Seq<char>,
    body_len: nat,
    etag: Seq<char>,
    encoding: Option<Seq<char>>,
    vary: bool,
    cache_control: Seq<char>,
    security: Seq<char>,
)
    requires
        is_quiet(mime),
        is_quiet(etag),
        encoding matches Some(e) ==> is_quiet(e),
        is_quiet(cache_control),
    ensures
        closing_header(
            encode_utf8(ok_head(mime, body_len, etag, encoding, vary, cache_control, security)),
        ) == encode_utf8(
            ok_front(mime, body_len, etag, encoding, vary, cache_control) + "Connection: close\r\n"@
                + security + "\r\n"@,
        ),
{
    let front = ok_front(mime, body_len, etag, encoding, vary, cache_control);
    let rest = "\r\n"@ + security + "\r\n"@;
    lemma_front_is_calm(mime, body_len, etag, encoding, vary, cache_control);
    lemma_close_in_place(front, rest);
    assert("Connection: keep-alive\r\n"@ == "Connection: keep-alive"@ + "\r\n"@
        && "Connection: close\r\n"@ == "Connection: close"@ + "\r\n"@) by {
        reveal_strlit("Connection: keep-alive");
        reveal_strlit("Connection: keep-alive\r\n");
        reveal_strlit("Connection: close");
        reveal_strlit("Connection: close\r\n");
        reveal_strlit("\r\n");
        assert("Connection: keep-alive\r\n"@ =~= "Connection: keep-alive"@ + "\r\n"@);
        assert("Connection: close\r\n"@ =~= "Connection: close"@ + "\r\n"@);
    }
    assert(front + "Connection: keep-alive\r\n"@ + security + "\r\n"@ =~= front
        + "Connection: keep-alive"@ + rest);
    assert(front + "Connection: close\r\n"@ + security + "\r\n"@ =~= front + "Connection: close"@
        + rest);
}

/// Behind a calm text, the field that says `keep-alive` is the first, and says
/// `close` instead.
proof fn lemma_close_in_place(front: Seq<char>, rest: Seq<char>)
    requires
        is_calm(front),
    ensures
        closing_header(encode_utf8(front + "Connection: keep-alive"@ + rest)) == encode_utf8(
            front + "Connection: close"@ + rest,
        ),
{
    let keep = "Connection: keep-alive"@;
    let close = "Connection: close"@;
    let f = encode_utf8(front);
    let k = encode_utf8(keep);
    let r = encode_utf8(rest);
    lemma_encode_concat(front + keep, rest);
    lemma_encode_concat(front, keep);
    lemma_encode_concat(front + close, rest);
    lemma_encode_concat(front, close);
    let y = k + r;
    let whole = f + y;
    assert(f + k + r =~= whole);
    lemma_no_start(front, y);
    lemma_run_behind(f, y, k);
    lemma_first_run_from(y, k, 0);
    assert(y.subrange(0, k.len() as int) =~= k);
    assert(first_run(whole, k) == Some(f.len() as int));
    assert(whole.take(f.len() as int) =~= f);
    assert(whole.skip((f.len() + k.len()) as int) =~= r);
}

/// No field that says `keep-alive` starts in a calm text.
proof fn lemma_no_start(front: Seq<char>, y: Seq<u8>)
    requires
        is_calm(front),
    ensures
        ({
            let f = encode_utf8(front);
            let k = encode_utf8("Connection: keep-alive"@);
            &&& k.len() > 4
            &&& forall|i: int|
                0 <= i < f.len() && i + k.len() <= f.len() + y.len() ==> #[trigger] (f
                    + y).subrange(i, i + k.len()) != k
        }),
{
    let keep = "Connection: keep-alive"@;
    reveal_strlit("Connection: keep-alive");
    is_ascii_chars_encode_utf8(front);
    is_ascii_chars_encode_utf8(keep);
    let f = encode_utf8(front);
    let k = encode_utf8(keep);
    let whole = f + y;
    assert(k[0] == keep[0] as u8 && k[1] == keep[1] as u8 && k[2] == keep[2] as u8 && k[3]
        == keep[3] as u8);
    assert forall|i: int| 0 <= i < f.len() && i + k.len() <= whole.len() implies #[trigger] (f
        + y).subrange(i, i + k.len()) != k by {
        let run = whole.subrange(i, i + k.len());
        if run == k {
            assert(run[0] == whole[i] && run[1] == whole[i + 1] && run[2] == whole[i + 2] && run[3]
                == whole[i + 3]);
            assert(f[i] == front[i] as u8);
            assert(front[i] == 'C');
            assert(f[i + 1] == front[i + 1] as u8 && f[i + 2] == front[i + 2] as u8 && f[i + 3]
                == front[i + 3] as u8);
        }
    }
}

/// The content types, the validators and the cache policies are quiet, on one
/// line.
pub proof fn lemma_fields_are_quiet(url: Seq<char>, body: Seq<u8>, t: Tuning)
    ensures
        is_field_text(mime_of(url)),
        is_field_text(etag_text(body)),
        is_field_text(cache_control_of(t, url)),
        is_field_text("gzip"@),
        is_field_text("br"@),
{
    lemma_types_are_quiet(match rcut(url, '.') {
        Some((_, ext)) => lowered(ext),
        None => seq![],
    });
    reveal_strlit("-");
    lemma_hex_is_field_text(body.len());
    lemma_quiet_concat(hex_text(body.len()), "-"@);
    let hash = mixed_bytes(FNV_OFFSET, body) as nat;
    lemma_hex_is_field_text(hash);
    lemma_quiet_concat(hex_text(body.len()) + "-"@, hex_text(hash));
    reveal_strlit("public, max-age=");
    reveal_strlit(", immutable");
    reveal_strlit(", must-revalidate");
    lemma_numbers_are_quiet(t.immutable_max_age as nat);
    lemma_numbers_are_quiet(t.cache_max_age as nat);
    lemma_quiet_concat("public, max-age="@, dec_text(t.immutable_max_age as nat));
    lemma_quiet_concat("public, max-age="@, dec_text(t.cache_max_age as nat));
    lemma_quiet_concat(
        "public, max-age="@ + dec_text(t.immutable_max_age as nat),
        ", immutable"@,
    );
    lemma_quiet_concat(
        "public, max-age="@ + dec_text(t.cache_max_age as nat),
        ", must-revalidate"@,
    );
    reveal_strlit("gzip");
    reveal_strlit("br");
}

/// Every content type is quiet, on one line.
proof fn lemma_types_are_quiet(ext: Seq<char>)
    ensures
        is_field_text(mime_of_ext(ext)),
        is_field_text("application/octet-stream"@),
{
    reveal_strlit("text/html; charset=utf-8");
    reveal_strlit("text/css; charset=utf-8");
    reveal_strlit("text/javascript; charset=utf-8");
    reveal_strlit("application/json; charset=utf-8");
    reveal_strlit("text/plain; charset=utf-8");
    reveal_strlit("application/xml; charset=utf-8");
    reveal_strlit("image/svg+xml");
    reveal_strlit("image/png");
    reveal_strlit("image/jpeg");
    reveal_strlit("image/gif");
    reveal_strlit("image/webp");
    reveal_strlit("image/avif");
    reveal_strlit("image/x-icon");
    reveal_strlit("font/woff");
    reveal_strlit("font/woff2");
    reveal_strlit("font/ttf");
    reveal_strlit("application/pdf");
    reveal_strlit("application/wasm");
    reveal_strlit("video/mp4");
    reveal_strlit("video/webm");
    reveal_strlit("audio/mpeg");
    reveal_strlit("application/octet-stream");
}

/// The header of a cached file's variant, on disk or in memory, says on a closing
/// connection that it closes, and differs from the one on a kept connection in
/// nothing else.
pub proof fn law_closing_answers_say_so(
    url: Seq<char>,
    body: Seq<u8>,
    encoding: Option<Seq<char>>,
    vary: bool,
    p: Policy,
)
    requires
        encoding == None::<Seq<char>> || encoding == Some("gzip"@) || encoding == Some("br"@),
    ensures
        ({
            let mime = mime_of(url);
            let cc = cache_control_of(p.t, url);
            let sec = p.security_headers@;
            closing_header(encode_utf8(variant_head(mime, body, encoding, vary, cc, sec)))
                == encode_utf8(
                ok_front(mime, body.len(), etag_text(body), encoding, vary, cc)
                    + "Connection: close\r\n"@ + sec + "\r\n"@,
            )
        }),
{
    lemma_fields_are_quiet(url, body, p.t);
    law_closing_changes_one_field(
        mime_of(url),
        body.len(),
        etag_text(body),
        encoding,
        vary,
        cache_control_of(p.t, url),
        p.security_headers@,
    );
}

} // verus!
