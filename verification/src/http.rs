//! The pieces that a request head and a URL are made of.
use vstd::prelude::*;
use vstd::slice::slice_subrange;
use vstd::string::StringExecFns;
use vstd::utf8::{decode_utf8, encode_utf8, is_ascii_chars, is_ascii_chars_encode_utf8, valid_utf8};

use crate::text::{
    after, all_white, chars_of, ends_with, find_char, first_of, first_run, first_run_from, hex_char,
    is_white, is_word, law_a_cut_is_at_the_first, law_splitting_undoes_joining,
    law_white_space_around_a_text_does_not_count, lemma_encode_concat, lemma_first_of, lower, lowered,
    none_holds, parts, same, split, string_of, strip_word, texts, to_lower, trim, trimmed, upper,
    uppered, with_between,
};

verus! {

// ---------------------------------------------------------------------- UTF-8

/// `core::str::from_utf8`: the bytes as text where they are valid UTF-8, and
/// nothing otherwise.
#[verifier::external_body]
fn utf8_str(bytes: &[u8]) -> (r: Option<&str>)
    ensures
        match r {
            Some(s) => valid_utf8(bytes@) && encode_utf8(s@) == bytes@,
            None => !valid_utf8(bytes@),
        },
{
    core::str::from_utf8(bytes).ok()
}

/// The text that bytes spell, where they spell one.
pub open spec fn text_of(bytes: Seq<u8>) -> Option<Seq<char>> {
    if valid_utf8(bytes) {
        Some(decode_utf8(bytes))
    } else {
        None
    }
}

/// Reads bytes as text.
pub fn read_text(bytes: &[u8]) -> (r: Option<&str>)
    ensures
        match r {
            Some(s) => text_of(bytes@) == Some(s@),
            None => text_of(bytes@) is None,
        },
{
    let r = utf8_str(bytes);
    proof {
        if let Some(s) = r {
            vstd::utf8::encode_utf8_decode_utf8(s@);
        }
    }
    r
}

// -------------------------------------------------------------------- framing

/// Finds a run of bytes. The empty run is nowhere.
pub fn find(hay: &[u8], needle: &[u8]) -> (r: Option<usize>)
    ensures
        match r {
            Some(i) => needle@.len() > 0 && first_run(hay@, needle@) == Some(i as int) && i
                + needle@.len() <= hay@.len(),
            None => needle@.len() == 0 || first_run(hay@, needle@) is None,
        },
{
    if needle.len() == 0 {
        return None;
    }
    find_from(hay, needle, 0)
}

/// Finds a run of bytes at or behind an index.
pub fn find_from(hay: &[u8], needle: &[u8], start: usize) -> (r: Option<usize>)
    requires
        needle@.len() > 0,
        start <= hay@.len(),
    ensures
        match r {
            Some(i) => first_run_from(hay@, needle@, start as int) == Some(i as int) && start <= i
                && i + needle@.len() <= hay@.len(),
            None => first_run_from(hay@, needle@, start as int) is None,
        },
{
    let mut i: usize = start;
    while needle.len() <= hay.len() - i
        invariant
            start <= i <= hay.len(),
            needle@.len() > 0,
            first_run_from(hay@, needle@, i as int) == first_run_from(
                hay@,
                needle@,
                start as int,
            ),
        decreases hay.len() - i,
    {
        let mut j: usize = 0;
        while j < needle.len() && hay[i + j] == needle[j]
            invariant
                0 <= j <= needle.len(),
                i + needle.len() <= hay.len(),
                forall|k: int| 0 <= k < j ==> hay@[i + k] == needle@[k],
            decreases needle.len() - j,
        {
            j = j + 1;
        }
        if j == needle.len() {
            assert(hay@.subrange(i as int, i + needle.len()) =~= needle@);
            return Some(i);
        }
        assert(hay@.subrange(i as int, i + needle.len())[j as int] != needle@[j as int]);
        i = i + 1;
    }
    None
}

/// One byte of a strictly framed head, at index `i`: a CR only before an LF, an
/// LF only behind a CR, no other control byte but the tab.
pub open spec fn framed_at(head: Seq<u8>, i: int) -> bool {
    let c = head[i];
    if c == 0x0d {
        i + 1 < head.len() && head[i + 1] == 0x0a
    } else if c == 0x0a {
        i > 0 && head[i - 1] == 0x0d
    } else {
        c != 0x7f && (c >= 0x20 || c == 0x09)
    }
}

/// A head that uses only CRLF line breaks and holds no stray control byte. A
/// bare LF or a lone CR would hide a header from the check on body framing.
pub open spec fn strictly_framed(head: Seq<u8>) -> bool {
    forall|i: int| 0 <= i < head.len() ==> #[trigger] framed_at(head, i)
}

/// Decides [`strictly_framed`].
pub fn well_formed_head(head: &[u8]) -> (r: bool)
    ensures
        r == strictly_framed(head@),
{
    let mut i: usize = 0;
    while i < head.len()
        invariant
            0 <= i <= head.len(),
            forall|j: int| 0 <= j < i ==> #[trigger] framed_at(head@, j),
            i > 0 ==> head@[i - 1] != 0x0d,
        decreases head.len() - i,
    {
        let c: u8 = head[i];
        if c == 0x0d {
            if i + 1 >= head.len() || head[i + 1] != 0x0a {
                assert(!framed_at(head@, i as int));
                return false;
            }
            assert(framed_at(head@, i as int));
            assert(framed_at(head@, i + 1));
            i = i + 2;
        } else {
            if c == 0x0a || c == 0x7f || (c < 0x20 && c != 0x09) {
                assert(!framed_at(head@, i as int));
                return false;
            }
            assert(framed_at(head@, i as int));
            i = i + 1;
        }
    }
    true
}

/// A text up to the first occurrence of a character, or all of it.
pub open spec fn up_to(s: Seq<char>, c: char) -> Seq<char> {
    match first_of(s, c) {
        Some(i) => s.take(i),
        None => s,
    }
}

/// Cuts a text off at the first occurrence of a character.
pub fn take_up_to(s: &[char], c: char) -> (r: &[char])
    ensures
        r@ == up_to(s@, c),
{
    match find_char(s, c) {
        Some(i) => slice_subrange(s, 0, i),
        None => s,
    }
}

// --------------------------------------------------------------- header values

/// A weight of zero: `0`, `0.`, `0.0` and so on.
pub open spec fn zero_weight(v: Seq<char>) -> bool {
    &&& v.len() > 0
    &&& v[0] == '0'
    &&& v.len() > 1 ==> v[1] == '.'
    &&& forall|i: int| 2 <= i < v.len() ==> #[trigger] v[i] == '0'
}

/// Decides [`zero_weight`].
pub fn is_zero_q(v: &str) -> (r: bool)
    ensures
        r == zero_weight(v@),
{
    let c = chars_of(v);
    if c.len() == 0 || c[0] != '0' {
        return false;
    }
    if c.len() == 1 {
        return true;
    }
    if c[1] != '.' {
        return false;
    }
    let mut i: usize = 2;
    while i < c.len()
        invariant
            2 <= i <= c.len(),
            c@ == v@,
            forall|j: int| 2 <= j < i ==> #[trigger] c@[j] == '0',
        decreases c.len() - i,
    {
        if c[i] != '0' {
            return false;
        }
        i = i + 1;
    }
    true
}

/// A coding's parameter that gives its weight.
pub open spec fn is_weight(param: Seq<char>) -> bool {
    param.len() >= 2 && lowered(param.take(2)) == "q="@
}

/// Whether a coding with these parameters is acceptable: the last weight
/// decides, and without one it is.
pub open spec fn acceptable(params: Seq<Seq<char>>) -> bool
    decreases params.len(),
{
    if params.len() == 0 {
        true
    } else {
        let param = trimmed(params.last());
        if is_weight(param) {
            !zero_weight(trimmed(param.skip(2)))
        } else {
            acceptable(params.drop_last())
        }
    }
}

/// The name of one coding in an `Accept-Encoding` list.
pub open spec fn coding_name(part: Seq<char>) -> Seq<char> {
    trimmed(parts(part, ';')[0])
}

/// Whether one coding in an `Accept-Encoding` list is acceptable.
pub open spec fn coding_accepted(part: Seq<char>) -> bool {
    acceptable(parts(part, ';').skip(1))
}

/// What the first coding of that name in a list says, if there is one.
pub open spec fn named_coding(list: Seq<Seq<char>>, token: Seq<char>) -> Option<bool>
    decreases list.len(),
{
    if list.len() == 0 {
        None
    } else if lowered(coding_name(list[0])) == lowered(token) {
        Some(coding_accepted(list[0]))
    } else {
        named_coding(list.skip(1), token)
    }
}

/// What the last wildcard in a list says, if there is one.
pub open spec fn wildcard_coding(list: Seq<Seq<char>>) -> Option<bool>
    decreases list.len(),
{
    if list.len() == 0 {
        None
    } else if coding_name(list.last()) == "*"@ {
        Some(coding_accepted(list.last()))
    } else {
        wildcard_coding(list.drop_last())
    }
}

/// Whether a client accepts a coding: an explicit entry wins over any wildcard,
/// and without either only identity is acceptable.
pub open spec fn accepts(field: Seq<char>, token: Seq<char>) -> bool {
    match named_coding(parts(field, ','), token) {
        Some(a) => a,
        None => match wildcard_coding(parts(field, ',')) {
            Some(a) => a,
            None => false,
        },
    }
}

/// There is always a first part.
proof fn lemma_parts(s: Seq<char>, sep: char)
    ensures
        parts(s, sep).len() > 0,
{
}

fn read_coding(part: &[char]) -> (r: (&[char], bool))
    ensures
        r.0@ == coding_name(part@),
        r.1 == coding_accepted(part@),
{
    let pieces = split(part, ';');
    let ghost all = parts(part@, ';');
    proof {
        lemma_parts(part@, ';');
        assert(texts(pieces@).len() == pieces@.len());
        assert(all[0] == pieces@[0]@);
    }
    let name = trim(pieces[0]);
    let mut accepted: bool = true;
    let mut i: usize = 1;
    let ghost params = all.skip(1);
    assert(params.take(0) =~= seq![]);
    while i < pieces.len()
        invariant
            1 <= i <= pieces.len(),
            texts(pieces@) == all,
            params == all.skip(1),
            accepted == acceptable(params.take(i - 1)),
        decreases pieces.len() - i,
    {
        let param = trim(pieces[i]);
        proof {
            assert(all[i as int] == pieces@[i as int]@);
            assert(params.take(i as int).drop_last() == params.take(i - 1));
            assert(params.take(i as int).last() == all[i as int]);
        }
        if param.len() >= 2 && is_word(to_lower(slice_subrange(param, 0, 2)).as_slice(), "q=") {
            let weight = string_of(trim(slice_subrange(param, 2, param.len())));
            accepted = !is_zero_q(weight.as_str());
        }
        i = i + 1;
    }
    assert(params.take(i - 1) == params);
    (name, accepted)
}

/// Decides whether a client accepts a coding, by the list as it is defined:
/// codings separated by commas, each with an optional weight.
pub fn accepts_encoding(field: &str, token: &str) -> (r: bool)
    ensures
        r == accepts(field@, token@),
{
    let chars = chars_of(field);
    let list = split(chars.as_slice(), ',');
    let ghost all = parts(field@, ',');
    let wanted = to_lower(chars_of(token).as_slice());
    let mut wildcard: Option<bool> = None;
    let mut i: usize = 0;
    assert(all.skip(0) == all);
    assert(all.take(0) =~= seq![]);
    while i < list.len()
        invariant
            0 <= i <= list.len(),
            texts(list@) == all,
            all == parts(field@, ','),
            wanted@ == lowered(token@),
            named_coding(all.skip(i as int), token@) == named_coding(all, token@),
            wildcard == wildcard_coding(all.take(i as int)),
        decreases list.len() - i,
    {
        let (name, accepted) = read_coding(list[i]);
        proof {
            assert(all[i as int] == list@[i as int]@);
            assert(all.skip(i as int)[0] == all[i as int]);
            assert(all.skip(i as int).skip(1) == all.skip(i + 1));
            assert(all.take(i + 1).drop_last() == all.take(i as int));
            assert(all.take(i + 1).last() == all[i as int]);
        }
        if same(to_lower(name).as_slice(), wanted.as_slice()) {
            return accepted;
        }
        if is_word(name, "*") {
            wildcard = Some(accepted);
        }
        i = i + 1;
    }
    assert(all.take(list.len() as int) == all);
    match wildcard {
        Some(a) => a,
        None => false,
    }
}

/// What stands inside an entity-tag: neither the weakness mark nor the quotes.
pub open spec fn tag_inside(tag: Seq<char>) -> Seq<char> {
    let t = match after(tag, "W/"@) {
        Some(rest) => rest,
        None => tag,
    };
    if t.len() >= 2 && t[0] == '"' && t.last() == '"' {
        t.subrange(1, t.len() - 1)
    } else {
        t
    }
}

/// Whether an `If-None-Match` field lists a validator: whole tags are compared,
/// weakly.
pub open spec fn lists_tag(field: Seq<char>, etag: Seq<char>) -> bool {
    trimmed(field) == "*"@ || exists|i: int|
        0 <= i < parts(trimmed(field), ',').len() && tag_inside(
            trimmed(#[trigger] parts(trimmed(field), ',')[i]),
        ) == etag
}

/// Decides [`lists_tag`].
pub fn inm_matches(field: &str, etag: &str) -> (r: bool)
    ensures
        r == lists_tag(field@, etag@),
{
    let chars = chars_of(field);
    let f = trim(chars.as_slice());
    if is_word(f, "*") {
        return true;
    }
    let tags = split(f, ',');
    let ghost all = parts(f@, ',');
    let mut i: usize = 0;
    while i < tags.len()
        invariant
            0 <= i <= tags.len(),
            texts(tags@) == all,
            f@ == trimmed(field@),
            all == parts(trimmed(field@), ','),
            forall|j: int| 0 <= j < i ==> tag_inside(trimmed(#[trigger] all[j])) != etag@,
        decreases tags.len() - i,
    {
        assert(all[i as int] == tags@[i as int]@);
        let tag = trim(tags[i]);
        let t = match strip_word(tag, "W/") {
            Some(rest) => rest,
            None => tag,
        };
        let inside = if t.len() >= 2 && t[0] == '"' && t[t.len() - 1] == '"' {
            slice_subrange(t, 1, t.len() - 1)
        } else {
            t
        };
        if is_word(inside, etag) {
            return true;
        }
        i = i + 1;
    }
    false
}

/// A host name as it is looked up: lower case, without a port; the inside of a
/// bracketed literal.
pub open spec fn host_key_of(h: Seq<char>) -> Seq<char> {
    let t = trimmed(h);
    if t.len() > 0 && t[0] == '[' {
        lowered(up_to(t.skip(1), ']'))
    } else {
        lowered(up_to(t, ':'))
    }
}

/// Normalizes a `Host` header to a lookup key.
pub fn normalize_host(h: &str) -> (r: String)
    ensures
        r@ == host_key_of(h@),
{
    let chars = chars_of(h);
    let t = trim(chars.as_slice());
    let base = if t.len() > 0 && t[0] == '[' {
        take_up_to(slice_subrange(t, 1, t.len()), ']')
    } else {
        take_up_to(t, ':')
    };
    string_of(to_lower(base).as_slice())
}

// ----------------------------------------------------------- percent-encoding

/// The value of a hexadecimal digit.
pub open spec fn hex_digit(c: u8) -> Option<u8> {
    if 0x30 <= c <= 0x39 {
        Some((c - 0x30) as u8)
    } else if 0x61 <= c <= 0x66 {
        Some((c - 0x57) as u8)
    } else if 0x41 <= c <= 0x46 {
        Some((c - 0x37) as u8)
    } else {
        None
    }
}

/// Reads a hexadecimal digit.
pub fn hexval(c: u8) -> (r: Option<u8>)
    ensures
        r == hex_digit(c),
{
    if 0x30 <= c && c <= 0x39 {
        Some(c - 0x30)
    } else if 0x61 <= c && c <= 0x66 {
        Some(c - 0x57)
    } else if 0x41 <= c && c <= 0x46 {
        Some(c - 0x37)
    } else {
        None
    }
}

/// A control byte.
pub open spec fn is_control_byte(b: u8) -> bool {
    b < 0x20 || b == 0x7f
}

/// The first byte that a percent-encoded run stands for, with how much of the
/// run it takes.
pub open spec fn first_decoded(b: Seq<u8>) -> Option<(u8, int)> {
    if b[0] == 0x25 {
        if b.len() < 3 {
            None
        } else {
            match (hex_digit(b[1]), hex_digit(b[2])) {
                (Some(hi), Some(lo)) => Some(((hi * 16 + lo) as u8, 3)),
                _ => None,
            }
        }
    } else {
        Some((b[0], 1))
    }
}

/// The bytes that a percent-encoded run stands for. A malformed escape or a
/// control byte, escaped or not, stands for nothing.
pub open spec fn decoded_bytes(b: Seq<u8>) -> Option<Seq<u8>>
    decreases b.len(),
{
    if b.len() == 0 {
        Some(seq![])
    } else {
        match first_decoded(b) {
            Some((v, n)) => if is_control_byte(v) || n <= 0 {
                None
            } else {
                match decoded_bytes(b.skip(n)) {
                    Some(rest) => Some(seq![v] + rest),
                    None => None,
                }
            },
            None => None,
        }
    }
}

/// Percent-decodes. The result only ever serves as a lookup key, never as a
/// path on disk.
pub fn percent_decode(s: &str) -> (r: Option<Vec<u8>>)
    ensures
        match r {
            Some(v) => decoded_bytes(encode_utf8(s@)) == Some(v@),
            None => decoded_bytes(encode_utf8(s@)) is None,
        },
{
    let b = s.as_bytes();
    let ghost all = encode_utf8(s@);
    let mut out: Vec<u8> = Vec::new();
    let mut i: usize = 0;
    assert(all.skip(0) == all);
    assert(decoded_bytes(all) matches Some(d) ==> out@ + d =~= d);
    while i < b.len()
        invariant
            0 <= i <= b.len(),
            b@ == all,
            all == encode_utf8(s@),
            match decoded_bytes(all.skip(i as int)) {
                Some(d) => decoded_bytes(all) == Some(out@ + d),
                None => decoded_bytes(all) is None,
            },
        decreases b.len() - i,
    {
        let ghost rest = all.skip(i as int);
        let mut n: usize = 1;
        let mut v: u8 = b[i];
        if v == 0x25 {
            if b.len() - i < 3 {
                return None;
            }
            assert(rest[1] == all[i + 1] && rest[2] == all[i + 2]);
            match (hexval(b[i + 1]), hexval(b[i + 2])) {
                (Some(hi), Some(lo)) => {
                    v = hi * 16 + lo;
                    n = 3;
                },
                _ => {
                    return None;
                },
            }
        }
        assert(first_decoded(rest) == Some((v, n as int)));
        if v < 0x20 || v == 0x7f {
            return None;
        }
        proof {
            assert(rest.skip(n as int) == all.skip(i + n));
            if let Some(d) = decoded_bytes(all.skip(i + n)) {
                assert(out@ + (seq![v] + d) =~= out@.push(v) + d);
            }
        }
        out.push(v);
        i = i + n;
    }
    assert(all.skip(i as int) =~= seq![]);
    assert(out@ + seq![] =~= out@);
    Some(out)
}

/// The bytes that a path carries unescaped: letters, digits, the separator, and
/// the punctuation that a path segment may hold.
pub open spec fn is_bare(b: u8) -> bool {
    ||| 0x30 <= b <= 0x39
    ||| 0x41 <= b <= 0x5a
    ||| 0x61 <= b <= 0x7a
    ||| b == 0x2d || b == 0x2e || b == 0x5f || b == 0x7e
    ||| b == 0x2f
    ||| b == 0x21 || b == 0x24 || b == 0x26 || b == 0x27 || b == 0x28 || b == 0x29
    ||| b == 0x2a || b == 0x2b || b == 0x2c || b == 0x3b || b == 0x3d
    ||| b == 0x3a || b == 0x40
}

/// The upper-case hexadecimal digit for a value below sixteen.
pub open spec fn upper_hex(d: u8) -> char {
    if d < 10 {
        (0x30 + d) as char
    } else {
        (0x37 + d) as char
    }
}

/// How one byte stands in a percent-encoded path.
pub open spec fn encoded_byte(b: u8) -> Seq<char> {
    if is_bare(b) {
        seq![b as char]
    } else {
        seq!['%', upper_hex(b / 16), upper_hex(b % 16)]
    }
}

/// Bytes percent-encoded as a path.
pub open spec fn encoded_path(bytes: Seq<u8>) -> Seq<char>
    decreases bytes.len(),
{
    if bytes.len() == 0 {
        seq![]
    } else {
        encoded_path(bytes.drop_last()) + encoded_byte(bytes.last())
    }
}

fn push_upper_hex(out: &mut String, d: u8)
    requires
        d < 16,
    ensures
        final(out)@ == old(out)@.push(upper_hex(d)),
{
    if d < 10 {
        out.push((0x30 + d) as char);
    } else {
        out.push((0x37 + d) as char);
    }
}

/// Percent-encodes a decoded path for a `Location` header.
pub fn percent_encode_path(s: &str) -> (r: String)
    ensures
        r@ == encoded_path(encode_utf8(s@)),
{
    let bytes = s.as_bytes();
    let mut out = String::new();
    let mut i: usize = 0;
    assert(out@ =~= seq![]);
    while i < bytes.len()
        invariant
            0 <= i <= bytes.len(),
            bytes@ == encode_utf8(s@),
            out@ == encoded_path(bytes@.take(i as int)),
        decreases bytes.len() - i,
    {
        let b: u8 = bytes[i];
        let ghost before = out@;
        proof {
            assert(bytes@.take(i + 1).drop_last() == bytes@.take(i as int));
            assert(bytes@.take(i + 1).last() == b);
        }
        let bare = (0x30 <= b && b <= 0x39) || (0x41 <= b && b <= 0x5a) || (0x61 <= b && b <= 0x7a)
            || b == 0x2d || b == 0x2e || b == 0x5f || b == 0x7e || b == 0x2f || b == 0x21 || b == 0x24
            || b == 0x26 || b == 0x27 || b == 0x28 || b == 0x29 || b == 0x2a || b == 0x2b || b == 0x2c
            || b == 0x3b || b == 0x3d || b == 0x3a || b == 0x40;
        if bare {
            out.push(b as char);
        } else {
            out.push('%');
            push_upper_hex(&mut out, b / 16);
            push_upper_hex(&mut out, b % 16);
        }
        assert(out@ =~= before + encoded_byte(b));
        i = i + 1;
    }
    assert(bytes@.take(bytes.len() as int) == bytes@);
    out
}

// -------------------------------------------------------------- canonical URLs

/// The canonical form of a path that spells itself with `.html`: the directory
/// form. `index` counts only as a whole last segment.
pub open spec fn canonical_of(path: Seq<char>) -> Option<Seq<char>> {
    if ".html"@.is_suffix_of(path) {
        let stem = path.take(path.len() - 5);
        let dir = stem.take(stem.len() - 5);
        if "index"@.is_suffix_of(stem) && (dir.len() == 0 || dir.last() == '/') {
            Some(dir)
        } else {
            Some(stem + "/"@)
        }
    } else {
        None
    }
}

/// Folds the `.html` spellings of a URL onto its directory form. `None` means
/// that the path is canonical already.
pub fn canonical_form(path: &str) -> (r: Option<String>)
    ensures
        match r {
            Some(c) => canonical_of(path@) == Some(c@),
            None => canonical_of(path@) is None,
        },
{
    proof {
        reveal_strlit(".html");
        reveal_strlit("index");
    }
    let chars = chars_of(path);
    let p = chars.as_slice();
    if !ends_with(p, ".html") {
        return None;
    }
    let stem = slice_subrange(p, 0, p.len() - 5);
    if ends_with(stem, "index") {
        let dir = slice_subrange(stem, 0, stem.len() - 5);
        if dir.len() == 0 || dir[dir.len() - 1] == '/' {
            return Some(string_of(dir));
        }
    }
    let mut c = string_of(stem);
    c.append("/");
    Some(c)
}

/// The authority of a redirect: the host, with the port unless it is the
/// scheme's default.
pub open spec fn authority_of(host: Seq<char>, port: Seq<char>, default: Seq<char>) -> Seq<char> {
    if port.len() == 0 || port == default {
        host
    } else {
        host + ":"@ + port
    }
}

/// Builds the authority of a redirect.
pub fn redirect_authority(host: &str, port: &str, default: &str) -> (r: String)
    ensures
        r@ == authority_of(host@, port@, default@),
{
    let p = chars_of(port);
    let mut s = host.to_string();
    if p.len() > 0 && !is_word(p.as_slice(), default) {
        s.append(":");
        s.append(port);
    }
    s
}

// ----------------------------------------------------------------------- laws

/// A redirect to the canonical form never meets another one: the canonical form
/// of a path is canonical.
pub proof fn law_canonical_form_is_final(path: Seq<char>)
    ensures
        canonical_of(path) matches Some(c) ==> canonical_of(c) is None,
{
    reveal_strlit(".html");
    reveal_strlit("index");
    reveal_strlit("/");
    if let Some(c) = canonical_of(path) {
        if ".html"@.is_suffix_of(c) {
            assert(c.last() == '/');
            assert(c.subrange(c.len() - 5, c.len() as int)[4] == c.last());
            assert(".html"@[4] == 'l');
        }
    }
}

/// Every way of hiding a line break from a reader of CRLF lines is refused: a
/// strictly framed head has a CR only before an LF and an LF only behind a CR.
pub proof fn law_framed_heads_break_lines_by_crlf(head: Seq<u8>, i: int)
    requires
        strictly_framed(head),
        0 <= i < head.len(),
    ensures
        head[i] == 0x0d ==> i + 1 < head.len() && head[i + 1] == 0x0a,
        head[i] == 0x0a ==> i > 0 && head[i - 1] == 0x0d,
        head[i] != 0x0d && head[i] != 0x0a ==> head[i] == 0x09 || !is_control_byte(head[i]),
{
    assert(framed_at(head, i));
}

/// Decoding one complete run behind another is decoding each.
proof fn lemma_decode_concat(a: Seq<u8>, b: Seq<u8>)
    requires
        decoded_bytes(a) is Some,
    ensures
        decoded_bytes(a + b) == (match decoded_bytes(b) {
            Some(d) => Some(decoded_bytes(a)->0 + d),
            None => None::<Seq<u8>>,
        }),
    decreases a.len(),
{
    if a.len() == 0 {
        assert(a + b == b);
        if let Some(d) = decoded_bytes(b) {
            assert(decoded_bytes(a)->0 + d =~= d);
        }
    } else {
        let (v, n) = first_decoded(a)->0;
        let whole = a + b;
        assert(whole[0] == a[0]);
        if a[0] == 0x25 {
            assert(whole[1] == a[1] && whole[2] == a[2]);
        }
        assert(first_decoded(whole) == first_decoded(a));
        assert(whole.skip(n) =~= a.skip(n) + b);
        lemma_decode_concat(a.skip(n), b);
        if let Some(d) = decoded_bytes(b) {
            let da = decoded_bytes(a.skip(n))->0;
            assert(seq![v] + (da + d) =~= (seq![v] + da) + d);
        }
    }
}

/// One encoded byte decodes to itself.
proof fn lemma_decode_byte(b: u8)
    requires
        !is_control_byte(b),
    ensures
        decoded_bytes(encode_utf8(encoded_byte(b))) == Some(seq![b]),
{
    let t = encoded_byte(b);
    assert(is_ascii_chars(t));
    is_ascii_chars_encode_utf8(t);
    let e = encode_utf8(t);
    reveal_with_fuel(decoded_bytes, 2);
    if is_bare(b) {
        assert(e =~= seq![b]);
        assert(e.skip(1) =~= seq![]);
        assert(seq![b] + seq![] =~= seq![b]);
    } else {
        let hi = b / 16;
        let lo = b % 16;
        assert(e =~= seq![0x25u8, upper_hex(hi) as u8, upper_hex(lo) as u8]);
        assert(hex_digit(e[1]) == Some(hi));
        assert(hex_digit(e[2]) == Some(lo));
        assert(hi * 16 + lo == b);
        assert(e.skip(3) =~= seq![]);
        assert(seq![b] + seq![] =~= seq![b]);
    }
}

/// What a `Location` spells is what was meant: percent-decoding the encoded form
/// of bytes without control bytes gives the bytes back.
pub proof fn law_percent_encoding_decodes_back(bytes: Seq<u8>)
    requires
        forall|i: int| 0 <= i < bytes.len() ==> !is_control_byte(#[trigger] bytes[i]),
    ensures
        decoded_bytes(encode_utf8(encoded_path(bytes))) == Some(bytes),
    decreases bytes.len(),
{
    if bytes.len() == 0 {
        assert(encode_utf8(encoded_path(bytes)) =~= seq![]);
        assert(bytes =~= seq![]);
    } else {
        let front = bytes.drop_last();
        assert forall|i: int| 0 <= i < front.len() implies !is_control_byte(#[trigger] front[i]) by {
            assert(front[i] == bytes[i]);
        }
        law_percent_encoding_decodes_back(front);
        lemma_encode_concat(encoded_path(front), encoded_byte(bytes.last()));
        lemma_decode_byte(bytes.last());
        lemma_decode_concat(
            encode_utf8(encoded_path(front)),
            encode_utf8(encoded_byte(bytes.last())),
        );
        assert(front + seq![bytes.last()] =~= bytes);
    }
}

// ------------------------------------------------------------- codings and tags

/// A weight is zero where it is a nought, alone or with noughts behind a point, and
/// nowhere else.
pub proof fn law_zero_weights(v: Seq<char>, n: nat)
    ensures
        zero_weight("0"@),
        zero_weight("0."@ + Seq::new(n, |i: int| '0')),
        zero_weight(v) ==> v == "0"@ || v == "0."@ + Seq::new(
            (v.len() - 2) as nat,
            |i: int| '0',
        ),
        v.len() == 0 ==> !zero_weight(v),
{
    reveal_strlit("0");
    reveal_strlit("0.");
    if zero_weight(v) {
        if v.len() == 1 {
            assert(v =~= "0"@);
        } else {
            assert(v =~= "0."@ + Seq::new((v.len() - 2) as nat, |i: int| '0'));
        }
    }
}

/// One entry of an `Accept-Encoding` list says which coding it is about in front of
/// its first semicolon, white space around it aside. Without a weight the coding is
/// accepted; with one it is accepted unless the weight is zero, and the case of the
/// `q` does not count.
pub proof fn law_one_coding(
    before: Seq<char>,
    name: Seq<char>,
    gap: Seq<char>,
    blank: Seq<char>,
    q: char,
    weight: Seq<char>,
)
    requires
        all_white(before),
        all_white(gap),
        all_white(blank),
        !name.contains(';'),
        name.len() > 0,
        !is_white(name[0]) && !is_white(name.last()),
        q == 'q' || q == 'Q',
        !weight.contains(';'),
        weight.len() > 0,
        !is_white(weight[0]) && !is_white(weight.last()),
    ensures
        coding_name(before + name + gap) == name,
        coding_accepted(before + name + gap),
        coding_name(before + name + gap + seq![';'] + blank + seq![q, '='] + weight) == name,
        coding_accepted(before + name + gap + seq![';'] + blank + seq![q, '='] + weight)
            <==> !zero_weight(weight),
{
    let plain = before + name + gap;
    lemma_white_holds_no(before, ';');
    lemma_white_holds_no(gap, ';');
    lemma_white_holds_no(blank, ';');
    assert(!plain.contains(';'));
    law_white_space_around_a_text_does_not_count(before, name, gap);
    lemma_one_part(plain, ';');
    assert(parts(plain, ';').skip(1) =~= seq![]);
    let param = blank + seq![q, '='] + weight;
    let w = seq![q, '='] + weight;
    assert forall|i: int| 0 <= i < param.len() implies param[i] != ';' by {
        if i < blank.len() {
            assert(blank.contains(blank[i]));
        } else if i >= blank.len() + 2 {
            assert(weight.contains(weight[i - blank.len() - 2]));
        }
    }
    assert(!param.contains(';'));
    let two = seq![plain, param];
    let whole = before + name + gap + seq![';'] + blank + seq![q, '='] + weight;
    assert(two.skip(1) =~= seq![param]);
    assert(with_between(two, ';') =~= whole) by {
        reveal_with_fuel(with_between, 3);
    }
    law_splitting_undoes_joining(two, ';');
    assert(parts(whole, ';') == two);
    assert(param =~= blank + w + seq![]);
    assert(w.last() == weight.last());
    law_white_space_around_a_text_does_not_count(blank, w, seq![]);
    assert(trimmed(param) == w);
    reveal_strlit("q=");
    assert(w.take(2) =~= seq![q, '=']);
    assert(lowered(seq![q, '=']) =~= "q="@);
    assert(w.skip(2) =~= weight);
    assert(seq![] + weight + seq![] =~= weight);
    law_white_space_around_a_text_does_not_count(seq![], weight, seq![]);
    assert(seq![param].last() == param);
}

/// The last weight among the parameters of a coding decides, whatever stands in front
/// of it. A parameter that is no weight, one that does not start with the letter and
/// the equals sign, decides nothing.
pub proof fn law_only_weights_count(params: Seq<Seq<char>>, param: Seq<char>)
    ensures
        ({
            let t = trimmed(param);
            let weight = t.len() >= 2 && (t[0] == 'q' || t[0] == 'Q') && t[1] == '=';
            &&& weight ==> (acceptable(params.push(param)) <==> !zero_weight(trimmed(t.skip(2))))
            &&& !weight ==> (acceptable(params.push(param)) <==> acceptable(params))
            &&& acceptable(seq![])
        }),
{
    let t = trimmed(param);
    reveal_strlit("q=");
    assert(params.push(param).drop_last() =~= params);
    if t.len() >= 2 {
        lemma_weight_letters(t[0]);
        lemma_weight_letters(t[1]);
        let low = lowered(t.take(2));
        assert(low[0] == lower(t[0]) && low[1] == lower(t[1]));
        if low == "q="@ {
            assert(low[0] == 'q' && low[1] == '=');
        }
        if lower(t[0]) == 'q' && lower(t[1]) == '=' {
            assert(low =~= "q="@);
        }
    }
}

/// Which letters are read as those of a weight.
proof fn lemma_weight_letters(c: char)
    ensures
        lower(c) == 'q' <==> c == 'q' || c == 'Q',
        lower(c) == '=' <==> c == '=',
{
}

proof fn lemma_white_holds_no(s: Seq<char>, c: char)
    requires
        all_white(s),
        !is_white(c),
    ensures
        !s.contains(c),
{
}

proof fn lemma_one_part(s: Seq<char>, sep: char)
    requires
        !s.contains(sep),
    ensures
        parts(s, sep) == seq![s],
{
    let one = seq![s];
    law_splitting_undoes_joining(one, sep);
}

/// What a client says of a coding by name is what counts: the first entry of the
/// list that names it decides, whatever the entries behind it and the wildcards
/// say, and the case of the name does not matter.
pub proof fn law_a_named_coding_decides(field: Seq<char>, token: Seq<char>, i: int)
    requires
        0 <= i < parts(field, ',').len(),
        lowered(coding_name(parts(field, ',')[i])) == lowered(token),
        forall|j: int|
            0 <= j < i ==> lowered(coding_name(#[trigger] parts(field, ',')[j])) != lowered(token),
    ensures
        accepts(field, token) == coding_accepted(parts(field, ',')[i]),
{
    lemma_named_coding(parts(field, ','), token, i);
}

proof fn lemma_named_coding(list: Seq<Seq<char>>, token: Seq<char>, i: int)
    requires
        0 <= i < list.len(),
        lowered(coding_name(list[i])) == lowered(token),
        forall|j: int| 0 <= j < i ==> lowered(coding_name(#[trigger] list[j])) != lowered(token),
    ensures
        named_coding(list, token) == Some(coding_accepted(list[i])),
    decreases list.len(),
{
    if i > 0 {
        assert(lowered(coding_name(list[0])) != lowered(token));
        let rest = list.skip(1);
        assert(rest[i - 1] == list[i]);
        assert forall|j: int| 0 <= j < i - 1 implies lowered(coding_name(#[trigger] rest[j]))
            != lowered(token) by {
            assert(rest[j] == list[j + 1]);
        }
        lemma_named_coding(rest, token, i - 1);
    }
}

/// A coding that no entry names is accepted where the last wildcard of the list is,
/// and not at all where there is no wildcard.
pub proof fn law_the_wildcard_stands_for_the_rest(field: Seq<char>, token: Seq<char>, i: int)
    requires
        forall|j: int|
            0 <= j < parts(field, ',').len() ==> lowered(
                coding_name(#[trigger] parts(field, ',')[j]),
            ) != lowered(token),
    ensures
        (0 <= i < parts(field, ',').len() && coding_name(parts(field, ',')[i]) == "*"@ && forall|
            j: int,
        |
            i < j < parts(field, ',').len() ==> coding_name(#[trigger] parts(field, ',')[j]) != "*"@)
            ==> accepts(field, token) == coding_accepted(parts(field, ',')[i]),
        (forall|j: int|
            0 <= j < parts(field, ',').len() ==> coding_name(#[trigger] parts(field, ',')[j])
                != "*"@) ==> !accepts(field, token),
{
    let list = parts(field, ',');
    lemma_not_named(list, token);
    if 0 <= i < list.len() && coding_name(list[i]) == "*"@ && forall|j: int|
        i < j < list.len() ==> coding_name(#[trigger] list[j]) != "*"@ {
        lemma_wildcard(list, i);
    }
    if forall|j: int| 0 <= j < list.len() ==> coding_name(#[trigger] list[j]) != "*"@ {
        lemma_wildcard(list, -1);
    }
}

proof fn lemma_not_named(list: Seq<Seq<char>>, token: Seq<char>)
    requires
        forall|j: int|
            0 <= j < list.len() ==> lowered(coding_name(#[trigger] list[j])) != lowered(token),
    ensures
        named_coding(list, token) is None,
    decreases list.len(),
{
    if list.len() > 0 {
        assert(lowered(coding_name(list[0])) != lowered(token));
        let rest = list.skip(1);
        assert forall|j: int| 0 <= j < rest.len() implies lowered(coding_name(#[trigger] rest[j]))
            != lowered(token) by {
            assert(rest[j] == list[j + 1]);
        }
        lemma_not_named(rest, token);
    }
}

proof fn lemma_wildcard(list: Seq<Seq<char>>, i: int)
    requires
        -1 <= i < list.len(),
        i >= 0 ==> coding_name(list[i]) == "*"@,
        forall|j: int| i < j < list.len() ==> coding_name(#[trigger] list[j]) != "*"@,
    ensures
        wildcard_coding(list) == (if i >= 0 {
            Some(coding_accepted(list[i]))
        } else {
            None
        }),
    decreases list.len(),
{
    if list.len() > 0 && i < list.len() - 1 {
        assert(coding_name(list[list.len() - 1]) != "*"@);
        let front = list.drop_last();
        assert forall|j: int| i < j < front.len() implies coding_name(#[trigger] front[j])
            != "*"@ by {
            assert(front[j] == list[j]);
        }
        if i >= 0 {
            assert(front[i] == list[i]);
        }
        lemma_wildcard(front, i);
    }
}

/// A client that lists a coding plainly gets it accepted, wherever in the list it
/// stands and however it is spelled, unless an entry before it says otherwise; one
/// that sends no field accepts none.
pub proof fn law_a_listed_coding_is_accepted(
    before: Seq<Seq<char>>,
    name: Seq<char>,
    behind: Seq<Seq<char>>,
    token: Seq<char>,
)
    requires
        none_holds(before, ','),
        none_holds(behind, ','),
        !name.contains(','),
        !name.contains(';'),
        name.len() > 0,
        !is_white(name[0]) && !is_white(name.last()),
        lowered(name) == lowered(token),
        forall|j: int|
            0 <= j < before.len() ==> lowered(coding_name(#[trigger] before[j])) != lowered(token),
    ensures
        accepts(with_between(before + seq![name] + behind, ','), token),
        token.len() > 0 ==> !accepts(seq![], token),
{
    let list = before + seq![name] + behind;
    assert forall|j: int| 0 <= j < list.len() implies !(#[trigger] list[j]).contains(',') by {
        if j < before.len() {
            assert(list[j] == before[j]);
        } else if j > before.len() {
            assert(list[j] == behind[j - before.len() - 1]);
        }
    }
    law_splitting_undoes_joining(list, ',');
    let field = with_between(list, ',');
    let i = before.len() as int;
    assert(list[i] == name);
    assert(seq![] + name + seq![] =~= name);
    lemma_one_part(name, ';');
    law_white_space_around_a_text_does_not_count(seq![], name, seq![]);
    assert(parts(name, ';').skip(1) =~= seq![]);
    assert forall|j: int| 0 <= j < i implies lowered(coding_name(#[trigger] parts(field, ',')[j]))
        != lowered(token) by {
        assert(list[j] == before[j]);
    }
    law_a_named_coding_decides(field, token, i);
    if token.len() > 0 {
        let none = Seq::<char>::empty();
        lemma_one_part(none, ',');
        lemma_one_part(none, ';');
        assert(trimmed(none) =~= none);
        assert(lowered(none).len() == 0 && lowered(token).len() > 0);
        reveal_strlit("*");
        assert("*"@.len() == 1);
        assert forall|j: int| 0 <= j < parts(none, ',').len() implies lowered(
            coding_name(#[trigger] parts(none, ',')[j]),
        ) != lowered(token) && coding_name(parts(none, ',')[j]) != "*"@ by {}
        law_the_wildcard_stands_for_the_rest(none, token, 0);
    }
}

/// A tag as it stands in a field, strong or weak.
pub open spec fn quoted(tag: Seq<char>) -> Seq<char> {
    seq!['"'] + tag + seq!['"']
}

/// A validator is looked for among whole tags: it is found where one part of the
/// field is the validator in its quotes, be it marked as weak or not, or where the
/// field is a star; a part that is neither the validator in quotes nor bare does
/// not count.
pub proof fn law_whole_tags_are_compared(field: Seq<char>, etag: Seq<char>, i: int)
    requires
        !etag.contains('"'),
        !etag.contains('/'),
    ensures
        trimmed(field) == "*"@ ==> lists_tag(field, etag),
        0 <= i < parts(trimmed(field), ',').len() && {
            let t = trimmed(parts(trimmed(field), ',')[i]);
            t == quoted(etag) || t == "W/"@ + quoted(etag)
        } ==> lists_tag(field, etag),
        lists_tag(field, etag) ==> trimmed(field) == "*"@ || exists|j: int|
            {
                let t = trimmed(#[trigger] parts(trimmed(field), ',')[j]);
                &&& 0 <= j < parts(trimmed(field), ',').len()
                &&& t == quoted(etag) || t == "W/"@ + quoted(etag) || t == etag || t == "W/"@ + etag
            },
{
    reveal_strlit("W/");
    let list = parts(trimmed(field), ',');
    if 0 <= i < list.len() {
        let t = trimmed(list[i]);
        if t == quoted(etag) {
            assert(t[0] == '"');
            assert(!"W/"@.is_prefix_of(t)) by {
                if "W/"@.is_prefix_of(t) {
                    assert("W/"@[0] == t.subrange(0, 2)[0]);
                }
            }
            assert(t.subrange(1, t.len() - 1) =~= etag);
            assert(tag_inside(t) == etag);
        } else if t == "W/"@ + quoted(etag) {
            assert("W/"@ =~= t.subrange(0, 2));
            let u = t.skip(2);
            assert(u =~= quoted(etag));
            assert(u.subrange(1, u.len() - 1) =~= etag);
            assert(tag_inside(t) == etag);
        }
    }
    if lists_tag(field, etag) && trimmed(field) != "*"@ {
        let j = choose|j: int|
            0 <= j < list.len() && tag_inside(trimmed(#[trigger] list[j])) == etag;
        let t = trimmed(list[j]);
        if "W/"@.is_prefix_of(t) {
            let u = t.skip(2);
            assert(t =~= "W/"@ + u);
            if u.len() >= 2 && u[0] == '"' && u.last() == '"' {
                assert(u =~= quoted(u.subrange(1, u.len() - 1)));
            }
        } else if t.len() >= 2 && t[0] == '"' && t.last() == '"' {
            assert(t =~= quoted(t.subrange(1, t.len() - 1)));
        }
    }
}

/// A field of one quoted tag matches that tag, and no other.
pub proof fn law_one_tag_matches_itself_alone(tag: Seq<char>, etag: Seq<char>)
    requires
        !tag.contains(','),
        !tag.contains('"'),
        !etag.contains('"'),
        !etag.contains('/'),
    ensures
        lists_tag(quoted(tag), etag) <==> tag == etag,
{
    let q = quoted(tag);
    assert(seq![] + q + seq![] =~= q);
    law_white_space_around_a_text_does_not_count(seq![], q, seq![]);
    assert(!q.contains(',')) by {
        assert forall|i: int| 0 <= i < q.len() implies q[i] != ',' by {
            if 0 < i < q.len() - 1 {
                assert(tag.contains(tag[i - 1]));
            }
        }
    }
    lemma_one_part(q, ',');
    reveal_strlit("*");
    reveal_strlit("W/");
    assert(q[0] == '"' && "*"@[0] == '*');
    law_whole_tags_are_compared(q, etag, 0);
    if lists_tag(q, etag) {
        assert(q == quoted(etag) || q == "W/"@ + quoted(etag) || q == etag || q == "W/"@ + etag);
        assert(("W/"@ + quoted(etag))[0] == 'W');
        assert(("W/"@ + etag)[0] == 'W');
        if q == etag {
            assert(etag.contains(etag[0]));
        }
        assert(quoted(tag).subrange(1, q.len() - 1) =~= tag);
        assert(quoted(etag).subrange(1, quoted(etag).len() - 1) =~= etag);
    }
}

// ---------------------------------------------------------------- names and paths

/// A host is known by its name: the port behind it, the white space around it and
/// the case of its letters do not count, and of a literal in brackets it is what
/// stands between them.
pub proof fn law_hosts_are_known_by_name(
    before: Seq<char>,
    name: Seq<char>,
    port: Seq<char>,
    behind: Seq<char>,
)
    requires
        all_white(before),
        all_white(behind),
        name.len() > 0,
        !is_white(name[0]) && !is_white(name.last()),
        port.len() > 0 ==> !is_white(port.last()),
        !name.contains(':') || !name.contains(']'),
    ensures
        !name.contains(':') && name[0] != '[' ==> host_key_of(before + name + behind) == lowered(
            name,
        ) && host_key_of(before + (name + seq![':'] + port) + behind) == lowered(name),
        !name.contains(']') ==> host_key_of(before + (seq!['['] + name + seq![']']) + behind)
            == lowered(name) && host_key_of(
            before + (seq!['['] + name + seq![']', ':'] + port) + behind,
        ) == lowered(name),
{
    if !name.contains(':') && name[0] != '[' {
        law_white_space_around_a_text_does_not_count(before, name, behind);
        law_a_cut_is_at_the_first(name, ':', port);
        let full = name + seq![':'] + port;
        assert(full[0] == name[0]);
        law_white_space_around_a_text_does_not_count(before, full, behind);
        lemma_first_of(name, ':');
        lemma_first_of(full, ':');
    }
    if !name.contains(']') {
        let lit = seq!['['] + name + seq![']'];
        law_white_space_around_a_text_does_not_count(before, lit, behind);
        assert(lit.skip(1) =~= name + seq![']'] + seq![]);
        law_a_cut_is_at_the_first(name, ']', seq![]);
        lemma_first_of(lit.skip(1), ']');
        let ported = seq!['['] + name + seq![']', ':'] + port;
        law_white_space_around_a_text_does_not_count(before, ported, behind);
        assert(ported.skip(1) =~= name + seq![']'] + (seq![':'] + port));
        law_a_cut_is_at_the_first(name, ']', seq![':'] + port);
        lemma_first_of(ported.skip(1), ']');
    }
}

/// What a percent-encoded path stands for, from its front: a byte that is no percent
/// sign stands for itself, a percent sign with two hexadecimal digits for the byte
/// of that value, in either case of the letters; a control byte or a percent sign
/// without two digits spoils all of it.
pub proof fn law_decoding_goes_byte_by_byte(b: u8, hi: u8, lo: u8, rest: Seq<u8>)
    requires
        hi < 16,
        lo < 16,
    ensures
        decoded_bytes(seq![]) == Some(Seq::<u8>::empty()),
        b != 0x25 && !(b < 0x20 || b == 0x7f) ==> decoded_bytes(seq![b] + rest) == (
        match decoded_bytes(rest) {
            Some(d) => Some(seq![b] + d),
            None => None::<Seq<u8>>,
        }),
        b != 0x25 && (b < 0x20 || b == 0x7f) ==> decoded_bytes(seq![b] + rest) is None,
        ({
            let v = (16 * hi + lo) as u8;
            let upper = seq![0x25u8, upper_hex(hi) as u8, upper_hex(lo) as u8] + rest;
            let small = seq![0x25u8, hex_char(hi as nat) as u8, hex_char(lo as nat) as u8] + rest;
            if v < 0x20 || v == 0x7f {
                decoded_bytes(upper) is None && decoded_bytes(small) is None
            } else {
                decoded_bytes(upper) == decoded_bytes(small) && decoded_bytes(upper) == (
                match decoded_bytes(rest) {
                    Some(d) => Some(seq![v] + d),
                    None => None::<Seq<u8>>,
                })
            }
        }),
        decoded_bytes(seq![0x25u8]) is None,
        decoded_bytes(seq![0x25u8, b]) is None,
        !is_hex_byte(b) ==> decoded_bytes(seq![0x25u8, b] + rest) is None,
        !is_hex_byte(b) ==> decoded_bytes(seq![0x25u8, upper_hex(hi) as u8, b] + rest) is None,
{
    let one = seq![b] + rest;
    assert(one[0] == b);
    assert(one.skip(1) =~= rest);
    let upper = seq![0x25u8, upper_hex(hi) as u8, upper_hex(lo) as u8] + rest;
    assert(upper[0] == 0x25 && upper[1] == upper_hex(hi) as u8 && upper[2] == upper_hex(lo) as u8);
    assert(upper.skip(3) =~= rest);
    assert(hex_digit(upper[1]) == Some(hi) && hex_digit(upper[2]) == Some(lo));
    let small = seq![0x25u8, hex_char(hi as nat) as u8, hex_char(lo as nat) as u8] + rest;
    assert(small[0] == 0x25);
    assert(small.skip(3) =~= rest);
    assert(hex_digit(small[1]) == Some(hi) && hex_digit(small[2]) == Some(lo));
    if !is_hex_byte(b) {
        assert(hex_digit(b) is None);
        let first = seq![0x25u8, b] + rest;
        assert(first[0] == 0x25 && first[1] == b);
        let second = seq![0x25u8, upper_hex(hi) as u8, b] + rest;
        assert(second[0] == 0x25 && second[2] == b);
    }
}

/// A byte that is a hexadecimal digit in ASCII.
pub open spec fn is_hex_byte(b: u8) -> bool {
    ('0' as u8 <= b <= '9' as u8) || ('a' as u8 <= b <= 'f' as u8) || ('A' as u8 <= b <= 'F' as u8)
}

/// How a path is spelled in a `Location`, from its front: letters, digits, slashes
/// and the marks that a segment may hold stand for themselves; every other byte is
/// a percent sign and two digits, the letters among them in capitals.
pub proof fn law_encoding_goes_byte_by_byte(b: u8, rest: Seq<u8>)
    ensures
        encoded_path(seq![]) == Seq::<char>::empty(),
        encoded_path(rest.push(b)) == encoded_path(rest) + encoded_path(seq![b]),
        is_plain_byte(b) ==> encoded_path(seq![b]) == seq![b as char],
        !is_plain_byte(b) ==> encoded_path(seq![b]).len() == 3 && encoded_path(seq![b])[0] == '%'
            && lowered(encoded_path(seq![b]).skip(1)) == seq![
            hex_char((b / 16) as nat),
            hex_char((b % 16) as nat),
        ] && uppered(encoded_path(seq![b])) == encoded_path(seq![b]),
{
    assert(rest.push(b).drop_last() =~= rest);
    reveal_with_fuel(encoded_path, 2);
    assert(seq![b].drop_last() =~= seq![]);
    assert(encoded_path(seq![b]) =~= encoded_byte(b));
    lemma_plain_is_bare(b);
    if !is_plain_byte(b) {
        let t = encoded_byte(b);
        lemma_upper_hex((b / 16) as u8);
        lemma_upper_hex((b % 16) as u8);
        assert(lowered(t.skip(1)) =~= seq![hex_char((b / 16) as nat), hex_char((b % 16) as nat)]);
        assert(uppered(t) =~= t);
    }
}

proof fn lemma_upper_hex(d: u8)
    requires
        d < 16,
    ensures
        lower(upper_hex(d)) == hex_char(d as nat),
        upper(upper_hex(d)) == upper_hex(d),
{
}

proof fn lemma_plain_is_bare(b: u8)
    ensures
        is_plain_byte(b) <==> is_bare(b),
{
    reveal_strlit("-._~/!$&'()*+,;=:@");
    let m = "-._~/!$&'()*+,;=:@"@;
    assert(m.len() == 18);
    assert(m[0] == '-');
    assert(m[1] == '.');
    assert(m[2] == '_');
    assert(m[3] == '~');
    assert(m[4] == '/');
    assert(m[5] == '!');
    assert(m[6] == '$');
    assert(m[7] == '&');
    assert(m[8] == '\'');
    assert(m[9] == '(');
    assert(m[10] == ')');
    assert(m[11] == '*');
    assert(m[12] == '+');
    assert(m[13] == ',');
    assert(m[14] == ';');
    assert(m[15] == '=');
    assert(m[16] == ':');
    assert(m[17] == '@');
    if is_plain_byte(b) && !('a' as u8 <= b <= 'z' as u8) && !('A' as u8 <= b <= 'Z' as u8) && !(
    '0' as u8 <= b <= '9' as u8) {
        let i = choose|i: int| 0 <= i < m.len() && b as int == (#[trigger] m[i]) as int;
        assert(i == 0 || i == 1 || i == 2 || i == 3 || i == 4 || i == 5 || i == 6 || i == 7 || i
            == 8 || i == 9 || i == 10 || i == 11 || i == 12 || i == 13 || i == 14 || i == 15 || i
            == 16 || i == 17);
    }
}

/// The bytes that need no escape in a path.
pub open spec fn is_plain_byte(b: u8) -> bool {
    ||| 'a' as u8 <= b <= 'z' as u8
    ||| 'A' as u8 <= b <= 'Z' as u8
    ||| '0' as u8 <= b <= '9' as u8
    ||| exists|i: int| 0 <= i < "-._~/!$&'()*+,;=:@"@.len() && b as int == (
    #[trigger] "-._~/!$&'()*+,;=:@"@[i]) as int
}

/// The `.html` spellings of a page fold onto one: an index onto its directory, every
/// other page onto its name with a slash, and any other path is as it should be.
pub proof fn law_html_spellings_fold(dir: Seq<char>, stem: Seq<char>, path: Seq<char>)
    ensures
        dir.len() == 0 || dir.last() == '/' ==> canonical_of(dir + "index.html"@) == Some(dir),
        dir.len() > 0 && dir.last() != '/' ==> canonical_of(dir + "index.html"@) == Some(
            dir + "index/"@,
        ),
        !"index"@.is_suffix_of(stem) ==> canonical_of(stem + ".html"@) == Some(stem + "/"@),
        !".html"@.is_suffix_of(path) ==> canonical_of(path) is None,
{
    reveal_strlit(".html");
    reveal_strlit("index");
    reveal_strlit("index.html");
    reveal_strlit("index/");
    reveal_strlit("/");
    let a = dir + "index.html"@;
    assert(a.subrange(a.len() - 5, a.len() as int) =~= ".html"@);
    let sa = a.take(a.len() - 5);
    assert(sa =~= dir + "index"@);
    assert(sa.subrange(sa.len() - 5, sa.len() as int) =~= "index"@);
    assert(sa.take(sa.len() - 5) =~= dir);
    assert(dir + "index"@ + "/"@ =~= dir + "index/"@);
    let b = stem + ".html"@;
    assert(b.subrange(b.len() - 5, b.len() as int) =~= ".html"@);
    assert(b.take(b.len() - 5) =~= stem);
}

/// A redirect names the port only where a client could not know it.
pub proof fn law_only_odd_ports_are_named(host: Seq<char>, port: Seq<char>, default: Seq<char>)
    ensures
        authority_of(host, default, default) == host,
        authority_of(host, seq![], default) == host,
        port.len() > 0 && port != default ==> authority_of(host, port, default) == host + seq![':']
            + port,
{
    reveal_strlit(":");
    assert(":"@ =~= seq![':']);
}

} // verus!
