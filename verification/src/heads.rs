//! Where a header block ends: at its blank line, and nowhere before it.
use vstd::prelude::*;
use vstd::utf8::{encode_scalar, encode_utf8, is_ascii_chars_encode_utf8};

use crate::config::{security_block, HeaderModel};
use crate::conn::terminator;
use crate::response::{
    connection_word, is_status, ok_front, ok_head, required_header, status_body, status_head,
    status_wire, StatusResponse,
};
use crate::serve::{not_modified_text, redirect_text, token_head};
use crate::text::{
    control_free, dec_text, first_of, first_run, is_control, lemma_encode_concat, lemma_encode_len,
    lemma_first_of, lemma_first_of_is, lemma_first_run_from,
};

verus! {

// --------------------------------------------------------------- field blocks

/// A text without a carriage return.
pub open spec fn no_cr(s: Seq<char>) -> bool {
    forall|i: int| 0 <= i < s.len() ==> #[trigger] s[i] != '\r'
}

/// A text of whole lines: each ends in CRLF, and none is blank.
pub open spec fn is_field_block(s: Seq<char>) -> bool
    decreases s.len(),
{
    if s.len() == 0 {
        true
    } else {
        match first_of(s, '\r') {
            Some(i) => 0 < i && i + 1 < s.len() && s[i + 1] == '\n' && is_field_block(
                s.skip(i + 2),
            ),
            None => false,
        }
    }
}

/// A text that a line break would make whole lines of.
pub open spec fn is_open_block(s: Seq<char>) -> bool {
    s.len() > 0 && is_field_block(s + "\r\n"@)
}

/// A line and its end, before whole lines, are whole lines.
proof fn lemma_line_before(l: Seq<char>, rest: Seq<char>)
    requires
        no_cr(l),
        l.len() > 0,
        is_field_block(rest),
    ensures
        is_field_block(l + "\r\n"@ + rest),
{
    reveal_strlit("\r\n");
    let s = l + "\r\n"@ + rest;
    assert(s[l.len() as int] == '\r');
    assert forall|j: int| 0 <= j < l.len() implies s[j] != '\r' by {
        assert(s[j] == l[j]);
    }
    lemma_first_of_is(s, '\r', l.len() as int);
    assert(s.skip(l.len() as int + 2) =~= rest);
}

/// Whole lines behind whole lines are whole lines.
pub proof fn lemma_block_concat(a: Seq<char>, b: Seq<char>)
    requires
        is_field_block(a),
        is_field_block(b),
    ensures
        is_field_block(a + b),
    decreases a.len(),
{
    if a.len() == 0 {
        assert(a + b =~= b);
    } else {
        reveal_strlit("\r\n");
        lemma_first_of(a, '\r');
        let i = first_of(a, '\r')->0;
        lemma_block_concat(a.skip(i + 2), b);
        lemma_line_before(a.take(i), a.skip(i + 2) + b);
        assert(a.take(i) + "\r\n"@ + (a.skip(i + 2) + b) =~= a + b);
    }
}

/// A line on its own, its end aside.
pub proof fn lemma_open_line(l: Seq<char>)
    requires
        no_cr(l),
        l.len() > 0,
    ensures
        is_open_block(l),
{
    lemma_line_before(l, seq![]);
    assert(l + "\r\n"@ + seq![] =~= l + "\r\n"@);
}

/// A line that is open goes on.
pub proof fn lemma_open_on(s: Seq<char>, t: Seq<char>)
    requires
        is_open_block(s),
        no_cr(t),
    ensures
        is_open_block(s + t),
    decreases s.len(),
{
    reveal_strlit("\r\n");
    let w = s + "\r\n"@;
    lemma_first_of(w, '\r');
    let i = first_of(w, '\r')->0;
    if i == s.len() {
        let l = s + t;
        assert forall|j: int| 0 <= j < l.len() implies #[trigger] l[j] != '\r' by {
            if j < s.len() {
                assert(w[j] == s[j]);
            } else {
                assert(l[j] == t[j - s.len()]);
            }
        }
        lemma_open_line(l);
    } else {
        let rest = s.skip(i + 2);
        assert(w[i + 1] == '\n');
        assert(i + 2 <= s.len()) by {
            if i + 1 == s.len() {
                assert(w[i + 1] == '\r');
            }
        }
        assert(w.skip(i + 2) =~= rest + "\r\n"@);
        let l = s.take(i);
        assert forall|j: int| 0 <= j < l.len() implies #[trigger] l[j] != '\r' by {
            assert(w[j] == s[j]);
        }
        assert(s[i] == w[i] && s[i + 1] == w[i + 1]);
        if rest.len() == 0 {
            // A blank line cannot stand at the end.
            assert(w.skip(i + 2) =~= "\r\n"@);
            assert(is_field_block("\r\n"@));
            lemma_first_of_is("\r\n"@, '\r', 0);
            assert(false);
        }
        lemma_open_on(rest, t);
        lemma_line_before(l, rest + t + "\r\n"@);
        assert(l + "\r\n"@ + (rest + t + "\r\n"@) =~= s + t + "\r\n"@);
    }
}

/// A line break, and an open text behind it.
pub proof fn lemma_open_join(s: Seq<char>, t: Seq<char>)
    requires
        is_open_block(s),
        is_open_block(t),
    ensures
        is_open_block(s + "\r\n"@ + t),
{
    lemma_block_concat(s + "\r\n"@, t + "\r\n"@);
    assert((s + "\r\n"@) + (t + "\r\n"@) =~= s + "\r\n"@ + t + "\r\n"@);
}

// ---------------------------------------------------------------------- bytes

/// The first byte of a character is that of no other ASCII character, and no byte
/// of a character is a carriage return unless it is one.
pub proof fn lemma_scalar_bytes(c: char)
    ensures
        encode_scalar(c as u32).len() > 0,
        encode_scalar(c as u32)[0] < 0x80 ==> encode_scalar(c as u32)[0] == c as u32,
        (c as u32) < 0x80 ==> encode_scalar(c as u32) == seq![c as u8],
        c != '\r' ==> forall|i: int|
            0 <= i < encode_scalar(c as u32).len() ==> #[trigger] encode_scalar(c as u32)[i] != 0x0d,
{
    let u = c as u32;
    vstd::utf8::char_is_scalar(c);
    assert(u < 0x80 ==> (u & 0x7f) == u) by (bit_vector);
    assert((0xc0u8 | (((u >> 6) & 0x1f) as u8)) >= 0x80u8) by (bit_vector);
    assert((0xe0u8 | (((u >> 12) & 0x0f) as u8)) >= 0x80u8) by (bit_vector);
    assert((0xf0u8 | (((u >> 18) & 0x07) as u8)) >= 0x80u8) by (bit_vector);
    assert((0x80u8 | ((u & 0x3f) as u8)) >= 0x80u8) by (bit_vector);
    assert((0x80u8 | (((u >> 6) & 0x3f) as u8)) >= 0x80u8) by (bit_vector);
    assert((0x80u8 | (((u >> 12) & 0x3f) as u8)) >= 0x80u8) by (bit_vector);
    if u < 0x80 {
        assert(encode_scalar(u) =~= seq![c as u8]);
    }
}

/// A text without a carriage return encodes to bytes without one.
pub proof fn lemma_no_cr_bytes(s: Seq<char>)
    requires
        no_cr(s),
    ensures
        forall|i: int| 0 <= i < encode_utf8(s).len() ==> #[trigger] encode_utf8(s)[i] != 0x0d,
    decreases s.len(),
{
    if s.len() > 0 {
        let rest = s.drop_first();
        assert forall|i: int| 0 <= i < rest.len() implies #[trigger] rest[i] != '\r' by {
            assert(rest[i] == s[i + 1]);
        }
        lemma_no_cr_bytes(rest);
        lemma_scalar_bytes(s[0]);
        let front = encode_scalar(s[0] as u32);
        assert forall|i: int| 0 <= i < encode_utf8(s).len() implies #[trigger] encode_utf8(s)[i]
            != 0x0d by {
            if i < front.len() {
                assert(encode_utf8(s)[i] == front[i]);
            } else {
                assert(encode_utf8(s)[i] == encode_utf8(rest)[i - front.len()]);
            }
        }
    }
}

/// Where no run starts in the front part of a text, the first run is the first
/// one behind it.
pub proof fn lemma_run_behind<T>(x: Seq<T>, y: Seq<T>, t: Seq<T>)
    requires
        forall|k: int|
            0 <= k < x.len() && k + t.len() <= x.len() + y.len() ==> #[trigger] (x + y).subrange(
                k,
                k + t.len(),
            ) != t,
    ensures
        first_run(x + y, t) == (match first_run(y, t) {
            Some(i) => Some(x.len() + i),
            None => None::<int>,
        }),
{
    let w = x + y;
    lemma_first_run_from(w, t, 0);
    lemma_first_run_from(y, t, 0);
    assert forall|k: int| 0 <= k && k + t.len() <= y.len() implies #[trigger] y.subrange(
        k,
        k + t.len(),
    ) == w.subrange(x.len() + k, x.len() + k + t.len()) by {
        assert(y.subrange(k, k + t.len()) =~= w.subrange(x.len() + k, x.len() + k + t.len()));
    }
    match first_run(w, t) {
        Some(j) => {
            assert(w.subrange(j, j + t.len()) == t);
            if j < x.len() {
                assert(false);
            }
            let k = j - x.len();
            assert(y.subrange(k, k + t.len()) == t);
            match first_run(y, t) {
                Some(i) => {
                    assert(w.subrange(x.len() + i, x.len() + i + t.len()) == t);
                    if i < k {
                        assert(w.subrange(x.len() + i, x.len() + i + t.len()) == t);
                        assert(false);
                    }
                },
                None => {},
            }
        },
        None => {
            if let Some(i) = first_run(y, t) {
                assert(w.subrange(x.len() + i, x.len() + i + t.len()) == t);
            }
        },
    }
}

/// CRLF in bytes.
proof fn lemma_crlf_bytes()
    ensures
        encode_utf8("\r\n"@) == seq![0x0du8, 0x0au8],
{
    reveal_strlit("\r\n");
    is_ascii_chars_encode_utf8("\r\n"@);
    assert(encode_utf8("\r\n"@) =~= seq![0x0du8, 0x0au8]);
}

/// Whole lines start with something else than a carriage return.
proof fn lemma_block_start(s: Seq<char>)
    requires
        is_field_block(s),
        s.len() > 0,
    ensures
        encode_utf8(s).len() > 0,
        encode_utf8(s)[0] != 0x0d,
{
    lemma_first_of(s, '\r');
    lemma_scalar_bytes(s[0]);
}

/// The blank line behind whole lines is the first that there is, whatever follows
/// it.
pub proof fn lemma_blank_line(s: Seq<char>, body: Seq<u8>)
    requires
        is_field_block(s),
        s.len() > 0,
    ensures
        first_run(encode_utf8(s + "\r\n"@) + body, terminator()) == Some(
            encode_utf8(s + "\r\n"@).len() - 4,
        ),
    decreases s.len(),
{
    reveal_strlit("\r\n");
    lemma_crlf_bytes();
    lemma_first_of(s, '\r');
    let t = terminator();
    let i = first_of(s, '\r')->0;
    let l = s.take(i);
    let rest = s.skip(i + 2);
    assert(s =~= l + "\r\n"@ + rest);
    assert(s + "\r\n"@ =~= l + "\r\n"@ + (rest + "\r\n"@));
    lemma_encode_concat(l + "\r\n"@, rest + "\r\n"@);
    lemma_encode_concat(l, "\r\n"@);
    lemma_encode_concat(rest, "\r\n"@);
    let e = encode_utf8(l);
    let crlf = seq![0x0du8, 0x0au8];
    let tail = encode_utf8(rest + "\r\n"@) + body;
    let w = encode_utf8(s + "\r\n"@) + body;
    assert(no_cr(l));
    lemma_no_cr_bytes(l);
    assert(w =~= e + crlf + tail);
    if rest.len() == 0 {
        assert(rest + "\r\n"@ =~= "\r\n"@);
        assert(tail =~= crlf + body);
        assert(w =~= e + (crlf + tail));
        assert forall|k: int| 0 <= k < e.len() && k + t.len() <= w.len() implies #[trigger] (e + (
        crlf + tail)).subrange(k, k + t.len()) != t by {
            assert((e + (crlf + tail)).subrange(k, k + t.len())[0] == e[k]);
        }
        lemma_run_behind(e, crlf + tail, t);
        assert((crlf + tail).subrange(0, 4) =~= t);
        lemma_first_run_from(crlf + tail, t, 0);
    } else {
        lemma_block_start(rest);
        lemma_blank_line(rest, body);
        let x = e + crlf;
        assert(w =~= x + tail);
        assert(tail[0] == encode_utf8(rest)[0]);
        assert forall|k: int| 0 <= k < x.len() && k + t.len() <= w.len() implies #[trigger] (x
            + tail).subrange(k, k + t.len()) != t by {
            let r = (x + tail).subrange(k, k + t.len());
            if k < e.len() {
                assert(r[0] == e[k]);
            } else if k == e.len() {
                assert(r[2] == tail[0]);
            } else {
                assert(r[0] == 0x0a);
            }
        }
        lemma_run_behind(x, tail, t);
        assert(tail =~= encode_utf8(rest + "\r\n"@) + body);
    }
}

/// Bytes up to their first blank line, with it.
pub open spec fn up_to_blank(b: Seq<u8>) -> Seq<u8> {
    match first_run(b, terminator()) {
        Some(i) => b.take(i + 4),
        None => b,
    }
}

/// A header block: whole lines, and a blank one behind them.
pub open spec fn is_head_text(s: Seq<char>) -> bool {
    exists|fields: Seq<char>| #[trigger]
        is_field_block(fields) && fields.len() > 0 && s == fields + "\r\n"@
}

/// Cutting a response off at its blank line leaves its header block.
pub proof fn lemma_cut_is_head(s: Seq<char>, body: Seq<u8>)
    requires
        is_head_text(s),
    ensures
        up_to_blank(encode_utf8(s) + body) == encode_utf8(s),
        first_run(encode_utf8(s) + body, terminator()) == Some(encode_utf8(s).len() - 4),
        encode_utf8(s).len() >= 4,
{
    let fields = choose|fields: Seq<char>| #[trigger]
        is_field_block(fields) && fields.len() > 0 && s == fields + "\r\n"@;
    lemma_blank_line(fields, body);
    lemma_first_run_from(encode_utf8(s) + body, terminator(), 0);
    assert((encode_utf8(s) + body).take(encode_utf8(s).len() as int) =~= encode_utf8(s));
}

// ------------------------------------------------------ the heads that are made

/// Digits hold no carriage return.
proof fn lemma_number_no_cr(n: nat)
    ensures
        no_cr(dec_text(n)),
    decreases n,
{
    if n >= 10 {
        lemma_number_no_cr(n / 10);
    }
}

/// A line with its end is whole lines.
proof fn lemma_whole_line(l: Seq<char>)
    requires
        no_cr(l),
        l.len() > 0,
    ensures
        is_field_block(l + "\r\n"@),
{
    lemma_open_line(l);
}

/// An open text, a line break, whole lines and a blank one make a header block.
proof fn lemma_head_ends(s: Seq<char>, more: Seq<char>, security: Seq<char>)
    requires
        is_open_block(s),
        is_field_block(more),
        is_field_block(security),
    ensures
        is_head_text(s + "\r\n"@ + more + security + "\r\n"@),
{
    let a = s + "\r\n"@;
    lemma_block_concat(a, more);
    lemma_block_concat(a + more, security);
    let fields = a + more + security;
    assert(fields.len() > 0);
    assert(is_field_block(fields));
}

/// The header block of a status page is one.
pub proof fn lemma_status_is_head(
    code: u16,
    reason: Seq<char>,
    conn: Seq<char>,
    security: Seq<char>,
)
    requires
        no_cr(reason),
        no_cr(conn),
        is_field_block(security),
    ensures
        is_head_text(status_head(code, reason, conn, security)),
{
    let body_len = encode_utf8(status_body(code, reason)).len();
    reveal_strlit("HTTP/1.1 ");
    reveal_strlit(" ");
    reveal_strlit("\r\n");
    reveal_strlit("\r\nContent-Type: text/html; charset=utf-8\r\nContent-Length: ");
    reveal_strlit("Content-Type: text/html; charset=utf-8");
    reveal_strlit("Content-Length: ");
    reveal_strlit("\r\nCache-Control: no-store\r\nConnection: ");
    reveal_strlit("Cache-Control: no-store");
    reveal_strlit("Connection: ");
    reveal_strlit("Allow: GET, HEAD\r\n");
    reveal_strlit("Allow: GET, HEAD");
    reveal_strlit("");
    lemma_number_no_cr(code as nat);
    lemma_number_no_cr(body_len);
    let s1 = "HTTP/1.1 "@ + dec_text(code as nat) + " "@ + reason;
    assert(no_cr(s1));
    lemma_open_line(s1);
    let s2 = s1 + "\r\n"@ + "Content-Type: text/html; charset=utf-8"@;
    lemma_open_line("Content-Type: text/html; charset=utf-8"@);
    lemma_open_join(s1, "Content-Type: text/html; charset=utf-8"@);
    lemma_open_line("Content-Length: "@);
    lemma_open_join(s2, "Content-Length: "@);
    let s3 = s2 + "\r\n"@ + "Content-Length: "@;
    lemma_open_on(s3, dec_text(body_len));
    let s4 = s3 + dec_text(body_len);
    lemma_open_line("Cache-Control: no-store"@);
    lemma_open_join(s4, "Cache-Control: no-store"@);
    let s5 = s4 + "\r\n"@ + "Cache-Control: no-store"@;
    lemma_open_line("Connection: "@);
    lemma_open_join(s5, "Connection: "@);
    let s6 = s5 + "\r\n"@ + "Connection: "@;
    lemma_open_on(s6, conn);
    let s7 = s6 + conn;
    assert("\r\nContent-Type: text/html; charset=utf-8\r\nContent-Length: "@ =~= "\r\n"@
        + "Content-Type: text/html; charset=utf-8"@ + "\r\n"@ + "Content-Length: "@);
    assert("\r\nCache-Control: no-store\r\nConnection: "@ =~= "\r\n"@ + "Cache-Control: no-store"@
        + "\r\n"@ + "Connection: "@);
    if code == 405 {
        lemma_whole_line("Allow: GET, HEAD"@);
        assert("Allow: GET, HEAD\r\n"@ =~= "Allow: GET, HEAD"@ + "\r\n"@);
    }
    lemma_head_ends(s7, required_header(code), security);
    assert(status_head(code, reason, conn, security) =~= s7 + "\r\n"@ + required_header(code)
        + security + "\r\n"@);
}

/// A redirect is a header block.
pub proof fn lemma_redirect_is_head(location: Seq<char>, keep_alive: bool, security: Seq<char>)
    requires
        no_cr(location),
        is_field_block(security),
    ensures
        is_head_text(redirect_text(location, keep_alive, security)),
{
    reveal_strlit("HTTP/1.1 301 Moved Permanently\r\nLocation: ");
    reveal_strlit("HTTP/1.1 301 Moved Permanently");
    reveal_strlit("Location: ");
    reveal_strlit("\r\n");
    reveal_strlit("\r\nContent-Length: 0\r\nConnection: ");
    reveal_strlit("Content-Length: 0");
    reveal_strlit("Connection: ");
    lemma_word_no_cr(keep_alive);
    let conn = connection_word(keep_alive);
    let s1 = "HTTP/1.1 301 Moved Permanently"@;
    lemma_open_line(s1);
    lemma_open_line("Location: "@);
    lemma_open_join(s1, "Location: "@);
    let s2 = s1 + "\r\n"@ + "Location: "@;
    lemma_open_on(s2, location);
    let s3 = s2 + location;
    lemma_open_line("Content-Length: 0"@);
    lemma_open_join(s3, "Content-Length: 0"@);
    let s4 = s3 + "\r\n"@ + "Content-Length: 0"@;
    lemma_open_line("Connection: "@);
    lemma_open_join(s4, "Connection: "@);
    let s5 = s4 + "\r\n"@ + "Connection: "@;
    lemma_open_on(s5, conn);
    let s6 = s5 + conn;
    assert("HTTP/1.1 301 Moved Permanently\r\nLocation: "@ =~= s1 + "\r\n"@ + "Location: "@);
    assert("\r\nContent-Length: 0\r\nConnection: "@ =~= "\r\n"@ + "Content-Length: 0"@ + "\r\n"@
        + "Connection: "@);
    assert(is_field_block(seq![]));
    lemma_head_ends(s6, seq![], security);
    assert(redirect_text(location, keep_alive, security) =~= s6 + "\r\n"@ + seq![] + security
        + "\r\n"@);
}

/// The words in a `Connection` header hold no carriage return.
pub proof fn lemma_word_no_cr(keep_alive: bool)
    ensures
        no_cr(connection_word(keep_alive)),
        connection_word(keep_alive).len() > 0,
{
    reveal_strlit("keep-alive");
    reveal_strlit("close");
}

/// The header block of a challenge answer is one.
pub proof fn lemma_token_is_head(len: nat, keep_alive: bool, security: Seq<char>)
    requires
        is_field_block(security),
    ensures
        is_head_text(token_head(len, keep_alive, security)),
{
    reveal_strlit(
        "HTTP/1.1 200 OK\r\nContent-Type: text/plain; charset=utf-8\r\nContent-Length: ",
    );
    reveal_strlit("HTTP/1.1 200 OK");
    reveal_strlit("Content-Type: text/plain; charset=utf-8");
    reveal_strlit("Content-Length: ");
    reveal_strlit("\r\n");
    reveal_strlit("\r\nCache-Control: no-store\r\nConnection: ");
    reveal_strlit("Cache-Control: no-store");
    reveal_strlit("Connection: ");
    lemma_word_no_cr(keep_alive);
    lemma_number_no_cr(len);
    let conn = connection_word(keep_alive);
    let s1 = "HTTP/1.1 200 OK"@;
    lemma_open_line(s1);
    lemma_open_line("Content-Type: text/plain; charset=utf-8"@);
    lemma_open_join(s1, "Content-Type: text/plain; charset=utf-8"@);
    let s2 = s1 + "\r\n"@ + "Content-Type: text/plain; charset=utf-8"@;
    lemma_open_line("Content-Length: "@);
    lemma_open_join(s2, "Content-Length: "@);
    let s3 = s2 + "\r\n"@ + "Content-Length: "@;
    lemma_open_on(s3, dec_text(len));
    let s4 = s3 + dec_text(len);
    lemma_open_line("Cache-Control: no-store"@);
    lemma_open_join(s4, "Cache-Control: no-store"@);
    let s5 = s4 + "\r\n"@ + "Cache-Control: no-store"@;
    lemma_open_line("Connection: "@);
    lemma_open_join(s5, "Connection: "@);
    let s6 = s5 + "\r\n"@ + "Connection: "@;
    lemma_open_on(s6, conn);
    let s7 = s6 + conn;
    assert("HTTP/1.1 200 OK\r\nContent-Type: text/plain; charset=utf-8\r\nContent-Length: "@ =~= s1
        + "\r\n"@ + "Content-Type: text/plain; charset=utf-8"@ + "\r\n"@ + "Content-Length: "@);
    assert("\r\nCache-Control: no-store\r\nConnection: "@ =~= "\r\n"@ + "Cache-Control: no-store"@
        + "\r\n"@ + "Connection: "@);
    assert(is_field_block(seq![]));
    lemma_head_ends(s7, seq![], security);
    assert(token_head(len, keep_alive, security) =~= s7 + "\r\n"@ + seq![] + security + "\r\n"@);
}

/// The start of a further field, written with the line break before it.
proof fn lemma_next_field(s: Seq<char>, start: Seq<char>)
    requires
        is_open_block(s),
        start.len() > 2,
        start[0] == '\r',
        start[1] == '\n',
        no_cr(start.skip(2)),
    ensures
        is_open_block(s + start),
{
    reveal_strlit("\r\n");
    let name = start.skip(2);
    lemma_open_line(name);
    lemma_open_join(s, name);
    assert(s + "\r\n"@ + name =~= s + start);
}

/// A line with its end, behind whole lines.
proof fn lemma_field_added(h: Seq<char>, name: Seq<char>, value: Seq<char>)
    requires
        is_field_block(h),
        no_cr(name),
        name.len() > 0,
        no_cr(value),
    ensures
        is_field_block(h + name + value + "\r\n"@),
{
    let l = name + value;
    assert(no_cr(l));
    lemma_whole_line(l);
    lemma_block_concat(h, l + "\r\n"@);
    assert(h + (l + "\r\n"@) =~= h + name + value + "\r\n"@);
}

/// The fields of a 200 and a 304 behind the validator: those that apply, and the
/// cache policy.
spec fn with_policy(
    h: Seq<char>,
    encoding: Option<Seq<char>>,
    vary: bool,
    cache_control: Seq<char>,
) -> Seq<char> {
    let h = match encoding {
        Some(e) => h + "Content-Encoding: "@ + e + "\r\n"@,
        None => h,
    };
    let h = if vary {
        h + "Vary: Accept-Encoding\r\n"@
    } else {
        h
    };
    h + "Cache-Control: "@ + cache_control + "\r\n"@
}

proof fn lemma_with_policy(
    h: Seq<char>,
    encoding: Option<Seq<char>>,
    vary: bool,
    cache_control: Seq<char>,
)
    requires
        is_field_block(h),
        encoding matches Some(e) ==> no_cr(e),
        no_cr(cache_control),
    ensures
        is_field_block(with_policy(h, encoding, vary, cache_control)),
        with_policy(h, encoding, vary, cache_control).len() > 0,
{
    reveal_strlit("Content-Encoding: ");
    reveal_strlit("Vary: Accept-Encoding\r\n");
    reveal_strlit("Vary: Accept-Encoding");
    reveal_strlit("Cache-Control: ");
    reveal_strlit("\r\n");
    let h1 = match encoding {
        Some(e) => {
            lemma_field_added(h, "Content-Encoding: "@, e);
            h + "Content-Encoding: "@ + e + "\r\n"@
        },
        None => h,
    };
    let h2 = if vary {
        lemma_whole_line("Vary: Accept-Encoding"@);
        assert("Vary: Accept-Encoding\r\n"@ =~= "Vary: Accept-Encoding"@ + "\r\n"@);
        lemma_block_concat(h1, "Vary: Accept-Encoding\r\n"@);
        h1 + "Vary: Accept-Encoding\r\n"@
    } else {
        h1
    };
    lemma_field_added(h2, "Cache-Control: "@, cache_control);
}

/// Whole lines, one more, the security headers and a blank line make a header
/// block.
proof fn lemma_head_closed(h: Seq<char>, line: Seq<char>, security: Seq<char>)
    requires
        is_field_block(h),
        h.len() > 0,
        is_field_block(line),
        is_field_block(security),
    ensures
        is_head_text(h + line + security + "\r\n"@),
{
    lemma_block_concat(h, line);
    lemma_block_concat(h + line, security);
    let fields = h + line + security;
    assert(is_field_block(fields) && fields.len() > 0);
}

/// A validator field, ended.
proof fn lemma_etag_ends(s: Seq<char>, etag: Seq<char>)
    requires
        is_open_block(s),
        no_cr(etag),
    ensures
        is_field_block(s + etag + "\"\r\n"@),
        (s + etag + "\"\r\n"@).len() > 0,
{
    reveal_strlit("\"\r\n");
    reveal_strlit("\"");
    reveal_strlit("\r\n");
    lemma_open_on(s, etag);
    lemma_open_on(s + etag, "\""@);
    assert(s + etag + "\""@ + "\r\n"@ =~= s + etag + "\"\r\n"@);
}

/// A 304 is a header block.
pub proof fn lemma_not_modified_is_head(
    etag: Seq<char>,
    encoding: Option<Seq<char>>,
    vary: bool,
    cache_control: Seq<char>,
    keep_alive: bool,
    security: Seq<char>,
)
    requires
        no_cr(etag),
        encoding matches Some(e) ==> no_cr(e),
        no_cr(cache_control),
        is_field_block(security),
    ensures
        is_head_text(
            not_modified_text(etag, encoding, vary, cache_control, keep_alive, security),
        ),
{
    let start = "HTTP/1.1 304 Not Modified\r\nETag: \""@;
    assert(is_open_block(start)) by {
        reveal_strlit("HTTP/1.1 304 Not Modified\r\nETag: \"");
        lemma_open_line(start.take(25));
        lemma_next_field(start.take(25), start.skip(25));
        assert(start.take(25) + start.skip(25) =~= start);
    }
    lemma_etag_ends(start, etag);
    let h = start + etag + "\"\r\n"@;
    lemma_with_policy(h, encoding, vary, cache_control);
    let p = with_policy(h, encoding, vary, cache_control);
    let conn = connection_word(keep_alive);
    lemma_word_no_cr(keep_alive);
    lemma_connection_line(conn);
    lemma_head_closed(p, "Connection: "@ + conn + "\r\n"@, security);
    let h1 = match encoding {
        Some(e) => h + "Content-Encoding: "@ + e + "\r\n"@,
        None => h,
    };
    let h2 = if vary {
        h1 + "Vary: Accept-Encoding\r\n"@
    } else {
        h1
    };
    let q = h2 + "Cache-Control: "@ + cache_control;
    assert(p == q + "\r\n"@);
    lemma_split_connection(q, conn);
    assert(not_modified_text(etag, encoding, vary, cache_control, keep_alive, security) == q
        + "\r\nConnection: "@ + conn + "\r\n"@ + security + "\r\n"@);
}

/// A `Connection` field is a whole line.
proof fn lemma_connection_line(conn: Seq<char>)
    requires
        no_cr(conn),
    ensures
        is_field_block("Connection: "@ + conn + "\r\n"@),
{
    reveal_strlit("Connection: ");
    assert(no_cr("Connection: "@ + conn));
    lemma_whole_line("Connection: "@ + conn);
}

/// A `Connection` field with the line break before it.
proof fn lemma_split_connection(q: Seq<char>, conn: Seq<char>)
    ensures
        q + "\r\nConnection: "@ + conn + "\r\n"@ == q + "\r\n"@ + ("Connection: "@ + conn
            + "\r\n"@),
{
    reveal_strlit("\r\nConnection: ");
    reveal_strlit("Connection: ");
    reveal_strlit("\r\n");
    assert("\r\nConnection: "@ =~= "\r\n"@ + "Connection: "@);
    assert(q + "\r\nConnection: "@ + conn + "\r\n"@ =~= q + "\r\n"@ + ("Connection: "@ + conn
        + "\r\n"@));
}

/// The fields of a 200 up to its validator.
proof fn lemma_ok_start(mime: Seq<char>, len: nat, etag: Seq<char>)
    requires
        no_cr(mime),
        no_cr(etag),
    ensures
        is_field_block(
            "HTTP/1.1 200 OK\r\nContent-Type: "@ + mime + "\r\nContent-Length: "@ + dec_text(len)
                + "\r\nETag: \""@ + etag + "\"\r\n"@,
        ),
{
    let start = "HTTP/1.1 200 OK\r\nContent-Type: "@;
    assert(is_open_block(start)) by {
        reveal_strlit("HTTP/1.1 200 OK\r\nContent-Type: ");
        lemma_open_line(start.take(15));
        lemma_next_field(start.take(15), start.skip(15));
        assert(start.take(15) + start.skip(15) =~= start);
    }
    lemma_open_on(start, mime);
    let s1 = start + mime;
    assert(is_open_block(s1 + "\r\nContent-Length: "@)) by {
        reveal_strlit("\r\nContent-Length: ");
        lemma_next_field(s1, "\r\nContent-Length: "@);
    }
    lemma_number_no_cr(len);
    lemma_open_on(s1 + "\r\nContent-Length: "@, dec_text(len));
    let s2 = s1 + "\r\nContent-Length: "@ + dec_text(len);
    assert(is_open_block(s2 + "\r\nETag: \""@)) by {
        reveal_strlit("\r\nETag: \"");
        lemma_next_field(s2, "\r\nETag: \""@);
    }
    lemma_etag_ends(s2 + "\r\nETag: \""@, etag);
}

/// The header block of a 200 is one, whichever `Connection` field it has.
pub proof fn lemma_ok_is_head(
    mime: Seq<char>,
    len: nat,
    etag: Seq<char>,
    encoding: Option<Seq<char>>,
    vary: bool,
    cache_control: Seq<char>,
    security: Seq<char>,
)
    requires
        no_cr(mime),
        no_cr(etag),
        encoding matches Some(e) ==> no_cr(e),
        no_cr(cache_control),
        is_field_block(security),
    ensures
        is_head_text(ok_head(mime, len, etag, encoding, vary, cache_control, security)),
        is_head_text(
            ok_front(mime, len, etag, encoding, vary, cache_control) + "Connection: close\r\n"@
                + security + "\r\n"@,
        ),
{
    lemma_ok_start(mime, len, etag);
    let h = "HTTP/1.1 200 OK\r\nContent-Type: "@ + mime + "\r\nContent-Length: "@ + dec_text(len)
        + "\r\nETag: \""@ + etag + "\"\r\n"@;
    lemma_with_policy(h, encoding, vary, cache_control);
    let front = with_policy(h, encoding, vary, cache_control);
    assert(front == ok_front(mime, len, etag, encoding, vary, cache_control));
    assert(is_field_block("Connection: keep-alive\r\n"@)) by {
        reveal_strlit("Connection: keep-alive\r\n");
        reveal_strlit("Connection: keep-alive");
        reveal_strlit("\r\n");
        lemma_whole_line("Connection: keep-alive"@);
        assert("Connection: keep-alive\r\n"@ =~= "Connection: keep-alive"@ + "\r\n"@);
    }
    assert(is_field_block("Connection: close\r\n"@)) by {
        reveal_strlit("Connection: close\r\n");
        reveal_strlit("Connection: close");
        reveal_strlit("\r\n");
        lemma_whole_line("Connection: close"@);
        assert("Connection: close\r\n"@ =~= "Connection: close"@ + "\r\n"@);
    }
    lemma_head_closed(front, "Connection: keep-alive\r\n"@, security);
    lemma_head_closed(front, "Connection: close\r\n"@, security);
}

// ----------------------------------------------------------------------- laws

/// A written-out line is whole lines: its end is the only line break in it.
proof fn lemma_written_line(line: Seq<char>)
    requires
        line.len() > 2,
        line[line.len() - 2] == '\r',
        line[line.len() - 1] == '\n',
        no_cr(line.take(line.len() - 2)),
    ensures
        is_field_block(line),
{
    reveal_strlit("\r\n");
    let l = line.take(line.len() - 2);
    lemma_whole_line(l);
    assert(l + "\r\n"@ =~= line);
}

/// The security headers are whole lines, where no line break comes in with the
/// content security policy. None does in a configuration that parses.
pub proof fn law_security_headers_are_whole_lines(h: HeaderModel)
    requires
        control_free(h.csp),
    ensures
        is_field_block(security_block(h)),
        security_block(h).len() > 0,
{
    let l1 = "X-Content-Type-Options: nosniff\r\n"@;
    let l2 = "X-Frame-Options: SAMEORIGIN\r\n"@;
    let l3 = "Referrer-Policy: strict-origin-when-cross-origin\r\n"@;
    let l4 = "Permissions-Policy: camera=(), microphone=(), geolocation=()\r\n"@;
    assert(is_field_block(l1) && l1.len() > 0) by {
        reveal_strlit("X-Content-Type-Options: nosniff\r\n");
        lemma_written_line(l1);
    }
    assert(is_field_block(l2)) by {
        reveal_strlit("X-Frame-Options: SAMEORIGIN\r\n");
        lemma_written_line(l2);
    }
    assert(is_field_block(l3)) by {
        reveal_strlit("Referrer-Policy: strict-origin-when-cross-origin\r\n");
        lemma_written_line(l3);
    }
    assert(is_field_block(l4)) by {
        reveal_strlit("Permissions-Policy: camera=(), microphone=(), geolocation=()\r\n");
        lemma_written_line(l4);
    }
    lemma_block_concat(l1, l2);
    lemma_block_concat(l1 + l2, l3);
    lemma_block_concat(l1 + l2 + l3, l4);
    let s = l1 + l2 + l3 + l4;
    let t = if h.hsts_max_age > 0 {
        let a = "Strict-Transport-Security: max-age="@;
        let d = dec_text(h.hsts_max_age as nat);
        let b = if h.hsts_include_subdomains {
            "; includeSubDomains"@
        } else {
            seq![]
        };
        let c = if h.hsts_preload {
            "; preload"@
        } else {
            seq![]
        };
        let value = d + b + c;
        reveal_strlit("Strict-Transport-Security: max-age=");
        reveal_strlit("; includeSubDomains");
        reveal_strlit("; preload");
        lemma_number_no_cr(h.hsts_max_age as nat);
        assert(no_cr(value));
        lemma_field_added(s, a, value);
        let x = s + a + d;
        let y = if h.hsts_include_subdomains {
            x + "; includeSubDomains"@
        } else {
            x
        };
        let z = if h.hsts_preload {
            y + "; preload"@
        } else {
            y
        };
        assert(y =~= x + b);
        assert(z =~= y + c);
        assert(z =~= s + a + value);
        z + "\r\n"@
    } else {
        s
    };
    if h.csp.len() > 0 {
        assert(no_cr(h.csp)) by {
            assert forall|i: int| 0 <= i < h.csp.len() implies #[trigger] h.csp[i] != '\r' by {
                assert(!is_control(h.csp[i]));
            }
        }
        reveal_strlit("Content-Security-Policy: ");
        lemma_field_added(t, "Content-Security-Policy: "@, h.csp);
    }
}

/// The reasons that status pages give hold no line break.
pub proof fn lemma_reasons()
    ensures
        no_cr("Bad Request"@),
        no_cr("Not Found"@),
        no_cr("Method Not Allowed"@),
        no_cr("Request Timeout"@),
        no_cr("Request Header Fields Too Large"@),
        no_cr("Internal Server Error"@),
{
    reveal_strlit("Bad Request");
    reveal_strlit("Not Found");
    reveal_strlit("Method Not Allowed");
    reveal_strlit("Request Timeout");
    reveal_strlit("Request Header Fields Too Large");
    reveal_strlit("Internal Server Error");
}

/// The HEAD form of a status page is its GET form cut off at the first blank
/// line, and shorter than it by the length that it states.
pub proof fn law_status_pages_end_at_their_blank_line(
    page: StatusResponse,
    code: u16,
    reason: Seq<char>,
    security: Seq<char>,
    keep_alive: bool,
) -> (around: (Seq<char>, Seq<char>))
    requires
        is_status(page, code, reason, security),
        no_cr(reason),
        is_field_block(security),
    ensures
        ({
            let head = page.wire(keep_alive, true);
            let full = page.wire(keep_alive, false);
            &&& head == up_to_blank(full)
            &&& first_run(head, terminator()) == Some(head.len() - 4)
            &&& head.is_prefix_of(full)
            &&& head.len() < full.len()
            &&& head == encode_utf8(
                around.0 + "\r\nContent-Length: "@ + dec_text((full.len() - head.len()) as nat)
                    + "\r\n"@ + around.1,
            )
        }),
{
    let conn = connection_word(keep_alive);
    let text = status_head(code, reason, conn, security);
    let body = encode_utf8(status_body(code, reason));
    lemma_word_no_cr(keep_alive);
    lemma_status_is_head(code, reason, conn, security);
    lemma_cut_is_head(text, body);
    lemma_cut_is_head(text, seq![]);
    assert(encode_utf8(text) + Seq::<u8>::empty() =~= encode_utf8(text));
    assert(page.wire(keep_alive, true) == status_wire(code, reason, security, keep_alive, true));
    assert(page.wire(keep_alive, false) == status_wire(code, reason, security, keep_alive, false));
    assert(body.len() > 0) by {
        reveal_strlit("</h1>\n");
        lemma_encode_len(status_body(code, reason));
    }
    let before = "HTTP/1.1 "@ + dec_text(code as nat) + " "@ + reason
        + "\r\nContent-Type: text/html; charset=utf-8"@;
    let after = "Cache-Control: no-store\r\nConnection: "@ + conn + "\r\n"@ + required_header(code)
        + security + "\r\n"@;
    assert(text == before + "\r\nContent-Length: "@ + dec_text(body.len()) + "\r\n"@ + after) by {
        reveal_strlit("\r\nContent-Type: text/html; charset=utf-8\r\nContent-Length: ");
        reveal_strlit("\r\nContent-Type: text/html; charset=utf-8");
        reveal_strlit("\r\nContent-Length: ");
        reveal_strlit("\r\nCache-Control: no-store\r\nConnection: ");
        reveal_strlit("Cache-Control: no-store\r\nConnection: ");
        reveal_strlit("\r\n");
        assert("\r\nContent-Type: text/html; charset=utf-8\r\nContent-Length: "@
            =~= "\r\nContent-Type: text/html; charset=utf-8"@ + "\r\nContent-Length: "@);
        assert("\r\nCache-Control: no-store\r\nConnection: "@ =~= "\r\n"@
            + "Cache-Control: no-store\r\nConnection: "@);
        assert(text =~= before + "\r\nContent-Length: "@ + dec_text(body.len()) + "\r\n"@ + after);
    }
    (before, after)
}

/// The two forms of a status page differ in the word of their `Connection` field
/// and in nothing else.
pub proof fn law_status_forms_differ_in_one_word(
    page: StatusResponse,
    code: u16,
    reason: Seq<char>,
    security: Seq<char>,
    is_head: bool,
) -> (around: (Seq<u8>, Seq<u8>))
    requires
        is_status(page, code, reason, security),
    ensures
        page.wire(true, is_head) == around.0 + encode_utf8("Connection: keep-alive"@) + around.1,
        page.wire(false, is_head) == around.0 + encode_utf8("Connection: close"@) + around.1,
{
    let body_len = encode_utf8(status_body(code, reason)).len();
    let before = "HTTP/1.1 "@ + dec_text(code as nat) + " "@ + reason
        + "\r\nContent-Type: text/html; charset=utf-8\r\nContent-Length: "@ + dec_text(body_len)
        + "\r\nCache-Control: no-store\r\n"@;
    let after = "\r\n"@ + required_header(code) + security + "\r\n"@;
    let tail = encode_utf8(after) + (if is_head {
        seq![]
    } else {
        encode_utf8(status_body(code, reason))
    });
    lemma_form(code, reason, security, "keep-alive"@);
    lemma_form(code, reason, security, "close"@);
    assert("Connection: "@ + "keep-alive"@ == "Connection: keep-alive"@
        && "Connection: "@ + "close"@ == "Connection: close"@) by {
        reveal_strlit("Connection: ");
        reveal_strlit("keep-alive");
        reveal_strlit("close");
        reveal_strlit("Connection: keep-alive");
        reveal_strlit("Connection: close");
        assert("Connection: "@ + "keep-alive"@ =~= "Connection: keep-alive"@);
        assert("Connection: "@ + "close"@ =~= "Connection: close"@);
    }
    assert(page.wire(true, is_head) == status_wire(code, reason, security, true, is_head));
    assert(page.wire(false, is_head) == status_wire(code, reason, security, false, is_head));
    lemma_encode_concat(before + "Connection: keep-alive"@, after);
    lemma_encode_concat(before, "Connection: keep-alive"@);
    lemma_encode_concat(before + "Connection: close"@, after);
    lemma_encode_concat(before, "Connection: close"@);
    assert(page.wire(true, is_head) =~= encode_utf8(before) + encode_utf8("Connection: keep-alive"@)
        + tail);
    assert(page.wire(false, is_head) =~= encode_utf8(before) + encode_utf8("Connection: close"@)
        + tail);
    (encode_utf8(before), tail)
}

/// A status page around its `Connection` field.
proof fn lemma_form(code: u16, reason: Seq<char>, security: Seq<char>, conn: Seq<char>)
    ensures
        ({
            let body_len = encode_utf8(status_body(code, reason)).len();
            let before = "HTTP/1.1 "@ + dec_text(code as nat) + " "@ + reason
                + "\r\nContent-Type: text/html; charset=utf-8\r\nContent-Length: "@ + dec_text(
                body_len,
            ) + "\r\nCache-Control: no-store\r\n"@;
            let after = "\r\n"@ + required_header(code) + security + "\r\n"@;
            status_head(code, reason, conn, security) == before + ("Connection: "@ + conn) + after
        }),
{
    let body_len = encode_utf8(status_body(code, reason)).len();
    let start = "HTTP/1.1 "@ + dec_text(code as nat) + " "@ + reason
        + "\r\nContent-Type: text/html; charset=utf-8\r\nContent-Length: "@ + dec_text(body_len);
    let after = "\r\n"@ + required_header(code) + security + "\r\n"@;
    reveal_strlit("\r\nCache-Control: no-store\r\nConnection: ");
    reveal_strlit("\r\nCache-Control: no-store\r\n");
    reveal_strlit("Connection: ");
    assert("\r\nCache-Control: no-store\r\nConnection: "@ =~= "\r\nCache-Control: no-store\r\n"@
        + "Connection: "@);
    assert(status_head(code, reason, conn, security) =~= start + "\r\nCache-Control: no-store\r\n"@
        + ("Connection: "@ + conn) + after);
}

} // verus!
