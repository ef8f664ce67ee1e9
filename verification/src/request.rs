//! Reading a request head.
//!
//! A head that could be read in more than one way is refused: nothing here
//! guesses.
use vstd::prelude::*;
use vstd::slice::slice_subrange;
use vstd::string::StringExecFns;
use vstd::utf8::{
    decode_utf8_encode_utf8, encode_scalar, encode_utf8, encode_utf8_decode_utf8,
    encode_utf8_valid_utf8, is_ascii_chars_encode_utf8,
};

use crate::heads::{lemma_run_behind, lemma_scalar_bytes, no_cr};
use crate::http::{framed_at, read_text, strictly_framed, text_of, well_formed_head};
use crate::text::{
    all_white, chars_of, control_free, cut, find_text, first_of, first_run, has_char, is_control,
    is_control_free, is_white, is_word, is_word_ci, law_a_cut_is_at_the_first,
    law_splitting_undoes_joining, law_white_space_around_a_text_does_not_count, lemma_encode_concat,
    lemma_first_of, lemma_first_of_is, lemma_first_run_from, lowered, parts, split, split_once,
    string_of, texts, trim, trimmed, trimmed_end, trimmed_start, with_between,
};

verus! {

/// The parts of a text between its CRLFs.
pub open spec fn crlf_parts(s: Seq<char>) -> Seq<Seq<char>>
    decreases s.len(),
{
    match first_run(s, "\r\n"@) {
        Some(i) => {
            proof {
                reveal_strlit("\r\n");
                lemma_first_run_from(s, "\r\n"@, 0);
            }
            seq![s.take(i)] + crlf_parts(s.skip(i + 2))
        },
        None => seq![s],
    }
}

fn split_crlf(s: &[char]) -> (r: Vec<&[char]>)
    ensures
        texts(r@) == crlf_parts(s@),
{
    let crlf = chars_of("\r\n");
    let mut out: Vec<&[char]> = Vec::new();
    let mut rest: &[char] = s;
    proof {
        reveal_strlit("\r\n");
    }
    loop
        invariant
            crlf@ == "\r\n"@,
            crlf@.len() == 2,
            texts(out@) + crlf_parts(rest@) == crlf_parts(s@),
        decreases rest.len(),
    {
        let ghost before = out@;
        match find_text(rest, crlf.as_slice()) {
            Some(i) => {
                let line = slice_subrange(rest, 0, i);
                let tail = slice_subrange(rest, i + 2, rest.len());
                out.push(line);
                proof {
                    assert(texts(out@) =~= texts(before).push(line@));
                    assert(tail@ == rest@.skip(i + 2));
                    assert(texts(out@) + crlf_parts(tail@) =~= texts(before) + crlf_parts(rest@));
                }
                rest = tail;
            },
            None => {
                out.push(rest);
                proof {
                    assert(texts(out@) =~= texts(before).push(rest@));
                    assert(texts(out@) =~= texts(before) + crlf_parts(rest@));
                }
                return out;
            },
        }
    }
}

// --------------------------------------------------------------------- fields

/// What the header fields say.
#[verifier::ext_equal]
pub struct FieldsModel {
    pub keep_alive: bool,
    pub accept_enc: Seq<char>,
    pub host: Seq<char>,
    pub host_seen: bool,
    pub inm: Seq<char>,
    /// A body is declared. None is ever read, so the request is refused.
    pub has_body: bool,
}

/// What is known before the first field. Only HTTP/1.1 keeps connections alive
/// by itself.
pub open spec fn no_fields(keep_alive: bool) -> FieldsModel {
    FieldsModel {
        keep_alive,
        accept_enc: ""@,
        host: ""@,
        host_seen: false,
        inm: ""@,
        has_body: false,
    }
}

/// What a `Connection` field asks for: its last `close` or `keep-alive` token
/// decides.
pub open spec fn connection_wish(tokens: Seq<Seq<char>>, keep_alive: bool) -> bool
    decreases tokens.len(),
{
    if tokens.len() == 0 {
        keep_alive
    } else {
        let token = lowered(trimmed(tokens.last()));
        if token == "close"@ {
            false
        } else if token == "keep-alive"@ {
            true
        } else {
            connection_wish(tokens.drop_last(), keep_alive)
        }
    }
}

/// One field line. A folded line, one without a colon, a name that is empty or
/// holds a blank, and a second `Host` are malformed.
pub open spec fn field_read(f: FieldsModel, line: Seq<char>) -> Option<FieldsModel> {
    if line.len() > 0 && (line[0] == ' ' || line[0] == '\t') {
        None
    } else {
        match cut(line, ':') {
            None => None,
            Some((name, raw)) => {
                let value = trimmed(raw);
                let key = lowered(name);
                if name.len() == 0 || name.contains(' ') || name.contains('\t') {
                    None
                } else if key == "host"@ {
                    if f.host_seen {
                        None
                    } else {
                        Some(FieldsModel { host: value, host_seen: true, ..f })
                    }
                } else if key == "content-length"@ {
                    Some(FieldsModel { has_body: f.has_body || value != "0"@, ..f })
                } else if key == "transfer-encoding"@ {
                    Some(FieldsModel { has_body: true, ..f })
                } else if key == "connection"@ {
                    Some(
                        FieldsModel {
                            keep_alive: connection_wish(parts(value, ','), f.keep_alive),
                            ..f
                        },
                    )
                } else if key == "if-none-match"@ {
                    Some(FieldsModel { inm: value, ..f })
                } else if key == "accept-encoding"@ {
                    Some(FieldsModel { accept_enc: value, ..f })
                } else {
                    Some(f)
                }
            },
        }
    }
}

/// The field lines from index `i` up to a blank one.
pub open spec fn fields_read(lines: Seq<Seq<char>>, i: int, f: FieldsModel) -> Option<FieldsModel>
    decreases lines.len() - i,
{
    if i < 0 || i >= lines.len() || lines[i].len() == 0 {
        Some(f)
    } else {
        match field_read(f, lines[i]) {
            None => None,
            Some(g) => fields_read(lines, i + 1, g),
        }
    }
}

/// What the header fields say.
struct Fields {
    keep_alive: bool,
    accept_enc: String,
    host: String,
    host_seen: bool,
    inm: String,
    has_body: bool,
}

impl View for Fields {
    type V = FieldsModel;

    closed spec fn view(&self) -> FieldsModel {
        FieldsModel {
            keep_alive: self.keep_alive,
            accept_enc: self.accept_enc@,
            host: self.host@,
            host_seen: self.host_seen,
            inm: self.inm@,
            has_body: self.has_body,
        }
    }
}

fn read_connection(value: &[char], keep_alive: bool) -> (r: bool)
    ensures
        r == connection_wish(parts(value@, ','), keep_alive),
{
    let tokens = split(value, ',');
    let ghost all = parts(value@, ',');
    let mut wish: bool = keep_alive;
    let mut i: usize = 0;
    assert(all.take(0) =~= seq![]);
    while i < tokens.len()
        invariant
            0 <= i <= tokens.len(),
            texts(tokens@) == all,
            wish == connection_wish(all.take(i as int), keep_alive),
        decreases tokens.len() - i,
    {
        proof {
            assert(all[i as int] == tokens@[i as int]@);
            assert(all.take(i + 1).drop_last() == all.take(i as int));
            assert(all.take(i + 1).last() == all[i as int]);
        }
        let token = trim(tokens[i]);
        if is_word_ci(token, "close") {
            wish = false;
        } else if is_word_ci(token, "keep-alive") {
            wish = true;
        }
        i = i + 1;
    }
    assert(all.take(tokens.len() as int) == all);
    wish
}

impl Fields {
    fn new(keep_alive: bool) -> (r: Self)
        ensures
            r@ == no_fields(keep_alive),
    {
        Fields {
            keep_alive,
            accept_enc: "".to_string(),
            host: "".to_string(),
            host_seen: false,
            inm: "".to_string(),
            has_body: false,
        }
    }

    /// Reads one field line; `false` means that it is malformed.
    fn read(&mut self, line: &[char]) -> (r: bool)
        ensures
            match field_read(old(self)@, line@) {
                Some(f) => r && final(self)@ == f,
                None => !r,
            },
    {
        if line.len() > 0 && (line[0] == ' ' || line[0] == '\t') {
            return false;
        }
        match split_once(line, ':') {
            None => false,
            Some((name, raw)) => {
                let value = trim(raw);
                if name.len() == 0 || has_char(name, ' ') || has_char(name, '\t') {
                    return false;
                }
                if is_word_ci(name, "host") {
                    if self.host_seen {
                        return false;
                    }
                    self.host_seen = true;
                    self.host = string_of(value);
                } else if is_word_ci(name, "content-length") {
                    if !is_word(value, "0") {
                        self.has_body = true;
                    }
                } else if is_word_ci(name, "transfer-encoding") {
                    self.has_body = true;
                } else if is_word_ci(name, "connection") {
                    self.keep_alive = read_connection(value, self.keep_alive);
                } else if is_word_ci(name, "if-none-match") {
                    self.inm = string_of(value);
                } else if is_word_ci(name, "accept-encoding") {
                    self.accept_enc = string_of(value);
                }
                true
            },
        }
    }
}

// ---------------------------------------------------------------- whole heads

/// A request.
#[verifier::ext_equal]
pub struct RequestModel {
    pub is_head: bool,
    pub is_get: bool,
    pub target: Seq<char>,
    pub keep_alive: bool,
    pub accept_enc: Seq<char>,
    pub host: Seq<char>,
    pub inm: Seq<char>,
}

/// What is wrong with a request line, if anything: it has other than three
/// fields, one of them is empty, the version is not one that is spoken, or the
/// target holds a control character.
pub open spec fn line_refused(line: Seq<char>) -> bool {
    let p = parts(line, ' ');
    ||| p.len() != 3
    ||| p[0].len() == 0
    ||| p[1].len() == 0
    ||| p[2] != "HTTP/1.1"@ && p[2] != "HTTP/1.0"@
    ||| !control_free(p[1])
}

/// What a head asks for. A head that is refused still says whether the refusal
/// may carry a body, where that much of it could be read.
pub open spec fn request_of(head: Seq<u8>) -> Result<RequestModel, bool> {
    match text_of(head) {
        None => Err(false),
        Some(text) => if !strictly_framed(head) {
            Err(false)
        } else {
            let lines = crlf_parts(text);
            let p = parts(lines[0], ' ');
            let is_head = p[0] == "HEAD"@;
            if line_refused(lines[0]) {
                Err(is_head)
            } else {
                match fields_read(lines, 1, no_fields(p[2] == "HTTP/1.1"@)) {
                    None => Err(is_head),
                    Some(f) => if f.has_body {
                        Err(is_head)
                    } else {
                        Ok(
                            RequestModel {
                                is_head,
                                is_get: p[0] == "GET"@,
                                target: p[1],
                                keep_alive: f.keep_alive,
                                accept_enc: f.accept_enc,
                                host: f.host,
                                inm: f.inm,
                            },
                        )
                    },
                }
            }
        },
    }
}

/// A request.
pub struct Request {
    pub is_head: bool,
    pub is_get: bool,
    /// Path and query as sent, free of control characters.
    pub target: String,
    /// What the client asks of the connection.
    pub keep_alive: bool,
    pub accept_enc: String,
    pub host: String,
    pub inm: String,
}

impl View for Request {
    type V = RequestModel;

    open spec fn view(&self) -> RequestModel {
        RequestModel {
            is_head: self.is_head,
            is_get: self.is_get,
            target: self.target@,
            keep_alive: self.keep_alive,
            accept_enc: self.accept_enc@,
            host: self.host@,
            inm: self.inm@,
        }
    }
}

/// Reads a request head. A refusal says whether the request was a HEAD, so that
/// its answer carries no body.
pub fn parse_request(head: &[u8]) -> (r: Result<Request, bool>)
    ensures
        match r {
            Ok(rq) => request_of(head@) == Ok::<RequestModel, bool>(rq@),
            Err(is_head) => request_of(head@) == Err::<RequestModel, bool>(is_head),
        },
{
    let text = match read_text(head) {
        Some(t) => t,
        None => return Err(false),
    };
    if !well_formed_head(head) {
        return Err(false);
    }
    let chars = chars_of(text);
    let lines = split_crlf(chars.as_slice());
    let ghost all = crlf_parts(text@);
    assert(all.len() > 0);
    assert(texts(lines@).len() == lines@.len());
    assert(all[0] == lines@[0]@);
    let p = split(lines[0], ' ');
    let ghost words = parts(lines@[0]@, ' ');
    assert(words.len() > 0);
    assert(texts(p@).len() == p@.len());
    assert(words[0] == p@[0]@);
    let is_head = is_word(p[0], "HEAD");
    if p.len() != 3 {
        return Err(is_head);
    }
    assert(words[1] == p@[1]@ && words[2] == p@[2]@);
    if p[0].len() == 0 || p[1].len() == 0 {
        return Err(is_head);
    }
    let modern = is_word(p[2], "HTTP/1.1");
    if !modern && !is_word(p[2], "HTTP/1.0") {
        return Err(is_head);
    }
    if !is_control_free(p[1]) {
        return Err(is_head);
    }
    let mut f = Fields::new(modern);
    let ghost start = f@;
    let mut i: usize = 1;
    while i < lines.len() && lines[i].len() > 0
        invariant
            1 <= i <= lines.len(),
            texts(lines@) == all,
            all == crlf_parts(text@),
            text_of(head@) == Some(text@),
            strictly_framed(head@),
            !line_refused(all[0]),
            is_head == (parts(all[0], ' ')[0] == "HEAD"@),
            start == no_fields(parts(all[0], ' ')[2] == "HTTP/1.1"@),
            fields_read(all, i as int, f@) == fields_read(all, 1, start),
        decreases lines.len() - i,
    {
        assert(all[i as int] == lines@[i as int]@);
        if !f.read(lines[i]) {
            return Err(is_head);
        }
        i = i + 1;
    }
    assert(i < lines.len() ==> all[i as int] == lines@[i as int]@);
    assert(fields_read(all, 1, start) == Some(f@));
    if f.has_body {
        return Err(is_head);
    }
    Ok(
        Request {
            is_head,
            is_get: is_word(p[0], "GET"),
            target: string_of(p[1]),
            keep_alive: f.keep_alive,
            accept_enc: f.accept_enc,
            host: f.host,
            inm: f.inm,
        },
    )
}

// ----------------------------------------------------------------------- laws

/// The name of a field line, in lower case.
pub open spec fn field_name(line: Seq<char>) -> Seq<char> {
    match cut(line, ':') {
        Some((name, _)) => lowered(name),
        None => ""@,
    }
}

/// The value of a field line.
pub open spec fn field_value(line: Seq<char>) -> Seq<char> {
    match cut(line, ':') {
        Some((_, value)) => trimmed(value),
        None => ""@,
    }
}

/// Whether the line at `i` is a field of a head: there is no blank line before
/// it.
pub open spec fn is_field(lines: Seq<Seq<char>>, i: int) -> bool {
    1 <= i < lines.len() && forall|j: int| 1 <= j <= i ==> (#[trigger] lines[j]).len() > 0
}

/// What is noted of a body, and that a host was seen, stays noted.
proof fn lemma_fields_keep(lines: Seq<Seq<char>>, i: int, f: FieldsModel)
    ensures
        fields_read(lines, i, f) matches Some(g) ==> (f.has_body ==> g.has_body) && (f.host_seen
            ==> g.host_seen && g.host == f.host),
    decreases lines.len() - i,
{
    if 0 <= i < lines.len() && lines[i].len() > 0 {
        if let Some(g) = field_read(f, lines[i]) {
            lemma_field_keeps(f, lines[i]);
            lemma_fields_keep(lines, i + 1, g);
        }
    }
}

/// One field keeps what was noted before it.
proof fn lemma_field_keeps(f: FieldsModel, line: Seq<char>)
    ensures
        field_read(f, line) matches Some(g) ==> (f.has_body ==> g.has_body) && (f.host_seen
            ==> g.host_seen && g.host == f.host),
{
}

/// What is read up to a field, and what comes of the rest.
proof fn lemma_fields_reach(lines: Seq<Seq<char>>, from: int, i: int, f: FieldsModel) -> (g:
    FieldsModel)
    requires
        1 <= from <= i < lines.len(),
        forall|j: int| from <= j <= i ==> (#[trigger] lines[j]).len() > 0,
        fields_read(lines, from, f) is Some,
    ensures
        fields_read(lines, i, g) == fields_read(lines, from, f),
        field_read(g, lines[i]) is Some,
        f.host_seen ==> g.host_seen,
    decreases i - from,
{
    if from == i {
        f
    } else {
        let next = field_read(f, lines[from])->0;
        lemma_field_keeps(f, lines[from]);
        lemma_fields_reach(lines, from + 1, i, next)
    }
}

/// A request that is taken can be read in one way only: every line ends in CRLF,
/// every field line has a name without blanks and is not folded, none declares a
/// body, and none but one names a host.
pub proof fn law_accepted_heads_are_unambiguous(head: Seq<u8>, i: int, j: int)
    requires
        request_of(head) is Ok,
    ensures
        strictly_framed(head),
        text_of(head) is Some,
        ({
            let lines = crlf_parts(text_of(head)->0);
            &&& parts(lines[0], ' ').len() == 3
            &&& is_field(lines, i) ==> {
                &&& cut(lines[i], ':') is Some
                &&& lines[i][0] != ' ' && lines[i][0] != '\t'
                &&& field_name(lines[i]).len() > 0
                &&& !field_name(lines[i]).contains(' ') && !field_name(lines[i]).contains('\t')
                &&& field_name(lines[i]) != "transfer-encoding"@
                &&& field_name(lines[i]) == "content-length"@ ==> field_value(lines[i]) == "0"@
                &&& field_name(lines[i]) == "host"@ && is_field(lines, j) && field_name(lines[j])
                    == "host"@ ==> i == j
            }
        }),
{
    let lines = crlf_parts(text_of(head)->0);
    let start = no_fields(parts(lines[0], ' ')[2] == "HTTP/1.1"@);
    if is_field(lines, i) {
        lemma_field_is_plain(lines, i, start);
        if is_field(lines, j) && i != j && field_name(lines[i]) == "host"@ && field_name(lines[j])
            == "host"@ {
            if i < j {
                lemma_one_host(lines, i, j, start);
            } else {
                lemma_one_host(lines, j, i, start);
            }
        }
    }
}

/// A field of a head that is taken.
proof fn lemma_field_is_plain(lines: Seq<Seq<char>>, i: int, start: FieldsModel)
    requires
        is_field(lines, i),
        fields_read(lines, 1, start) matches Some(f) && !f.has_body,
    ensures
        cut(lines[i], ':') is Some,
        lines[i][0] != ' ' && lines[i][0] != '\t',
        field_name(lines[i]).len() > 0,
        !field_name(lines[i]).contains(' ') && !field_name(lines[i]).contains('\t'),
        field_name(lines[i]) != "transfer-encoding"@,
        field_name(lines[i]) == "content-length"@ ==> field_value(lines[i]) == "0"@,
{
    reveal_strlit("host");
    reveal_strlit("content-length");
    reveal_strlit("transfer-encoding");
    let g = lemma_fields_reach(lines, 1, i, start);
    let next = field_read(g, lines[i])->0;
    lemma_fields_keep(lines, i + 1, next);
    let (name, _) = cut(lines[i], ':')->0;
    lemma_lowered_blanks(name);
    assert("transfer-encoding"@.len() != "host"@.len());
    assert("transfer-encoding"@.len() != "content-length"@.len());
    assert("content-length"@.len() != "host"@.len());
}

/// Lower-casing adds no blanks.
proof fn lemma_lowered_blanks(s: Seq<char>)
    requires
        !s.contains(' '),
        !s.contains('\t'),
    ensures
        !lowered(s).contains(' '),
        !lowered(s).contains('\t'),
        lowered(s).len() == s.len(),
{
    let l = lowered(s);
    assert forall|i: int| 0 <= i < l.len() implies l[i] != ' ' && l[i] != '\t' by {
        assert(s.contains(s[i]));
    }
}

/// A second host is refused.
proof fn lemma_one_host(lines: Seq<Seq<char>>, i: int, j: int, start: FieldsModel)
    requires
        i < j,
        is_field(lines, i),
        is_field(lines, j),
        field_name(lines[i]) == "host"@,
        field_name(lines[j]) == "host"@,
    ensures
        fields_read(lines, 1, start) is None,
{
    if fields_read(lines, 1, start) is Some {
        let g = lemma_fields_reach(lines, 1, i, start);
        let next = field_read(g, lines[i])->0;
        assert(next.host_seen);
        let h = lemma_fields_reach(lines, i + 1, j, next);
        assert(field_read(h, lines[j]) is None);
    }
}

/// A request with its method made HEAD.
pub open spec fn as_head(rq: RequestModel) -> RequestModel {
    RequestModel { is_head: true, is_get: false, ..rq }
}

/// A word and a blank before a text.
proof fn lemma_word_before(word: Seq<char>, rest: Seq<char>)
    requires
        no_cr(word),
        !word.contains(' '),
    ensures
        ({
            let lines = crlf_parts(rest);
            let all = crlf_parts(word + seq![' '] + rest);
            &&& all == seq![word + seq![' '] + lines[0]] + lines.skip(1)
            &&& parts(all[0], ' ') == seq![word] + parts(lines[0], ' ')
        }),
{
    reveal_strlit("\r\n");
    let x = word + seq![' '];
    let s = x + rest;
    let t = "\r\n"@;
    assert forall|k: int| 0 <= k < x.len() && k + t.len() <= s.len() implies #[trigger] (x
        + rest).subrange(k, k + t.len()) != t by {
        assert((x + rest).subrange(k, k + t.len())[0] == x[k]);
    }
    lemma_run_behind(x, rest, t);
    lemma_first_run_from(rest, t, 0);
    let lines = crlf_parts(rest);
    let all = crlf_parts(s);
    match first_run(rest, t) {
        Some(i) => {
            assert(s.take(x.len() + i) =~= x + rest.take(i));
            assert(s.skip(x.len() + i + 2) =~= rest.skip(i + 2));
            assert(lines.skip(1) =~= crlf_parts(rest.skip(i + 2)));
        },
        None => {
            assert(lines.skip(1) =~= seq![]);
            assert(all =~= seq![x + lines[0]] + lines.skip(1));
        },
    }
    let l = all[0];
    assert(l == x + lines[0]);
    assert forall|j: int| 0 <= j < word.len() implies l[j] != ' ' by {
        assert(l[j] == word[j]);
        assert(word.contains(word[j]));
    }
    lemma_first_of_is(l, ' ', word.len() as int);
    assert(l.take(word.len() as int) =~= word);
    assert(l.skip(word.len() as int + 1) =~= lines[0]);
}

/// The fields of a head do not depend on its first line.
proof fn lemma_fields_alike(a: Seq<Seq<char>>, b: Seq<Seq<char>>, i: int, f: FieldsModel)
    requires
        1 <= i,
        a.len() == b.len(),
        forall|j: int| 1 <= j < a.len() ==> #[trigger] a[j] == b[j],
    ensures
        fields_read(a, i, f) == fields_read(b, i, f),
    decreases a.len() - i,
{
    if i < a.len() {
        assert(a[i] == b[i]);
        if a[i].len() > 0 {
            if let Some(g) = field_read(f, a[i]) {
                lemma_fields_alike(a, b, i + 1, g);
            }
        }
    }
}

/// What is framed behind one plain text is framed behind another.
proof fn lemma_framed_behind(x: Seq<u8>, y: Seq<u8>, rest: Seq<u8>)
    requires
        x.len() > 0,
        y.len() > 0,
        forall|i: int| 0 <= i < x.len() ==> 0x20 <= #[trigger] x[i] < 0x7f,
        forall|i: int| 0 <= i < y.len() ==> 0x20 <= #[trigger] y[i] < 0x7f,
        strictly_framed(x + rest),
    ensures
        strictly_framed(y + rest),
{
    let a = x + rest;
    let b = y + rest;
    assert forall|i: int| 0 <= i < b.len() implies #[trigger] framed_at(b, i) by {
        if i < y.len() {
            assert(b[i] == y[i]);
        } else {
            let j = i - y.len() + x.len();
            assert(framed_at(a, j));
            assert(a[j] == b[i]);
            if i + 1 < b.len() {
                assert(a[j + 1] == b[i + 1]);
            }
            if i > y.len() {
                assert(a[j - 1] == b[i - 1]);
            } else {
                assert(a[j - 1] == x[x.len() - 1]);
            }
        }
    }
}

/// A HEAD asks for what the GET asks for: two heads that differ in this method
/// alone are read alike, or both refused.
pub proof fn law_head_is_read_like_get(rest: Seq<char>)
    requires
        strictly_framed(encode_utf8("GET "@ + rest)),
    ensures
        strictly_framed(encode_utf8("HEAD "@ + rest)),
        match request_of(encode_utf8("GET "@ + rest)) {
            Ok(rq) => rq.is_get && !rq.is_head && request_of(encode_utf8("HEAD "@ + rest)) == Ok::<
                RequestModel,
                bool,
            >(as_head(rq)),
            Err(is_head) => !is_head && request_of(encode_utf8("HEAD "@ + rest)) == Err::<
                RequestModel,
                bool,
            >(true),
        },
{
    reveal_strlit("GET ");
    reveal_strlit("HEAD ");
    reveal_strlit("GET");
    reveal_strlit("HEAD");
    let g = "GET "@ + rest;
    let h = "HEAD "@ + rest;
    assert("GET "@ =~= "GET"@ + seq![' ']);
    assert("HEAD "@ =~= "HEAD"@ + seq![' ']);
    lemma_encode_concat("GET "@, rest);
    lemma_encode_concat("HEAD "@, rest);
    is_ascii_chars_encode_utf8("GET "@);
    is_ascii_chars_encode_utf8("HEAD "@);
    lemma_framed_behind(encode_utf8("GET "@), encode_utf8("HEAD "@), encode_utf8(rest));
    encode_utf8_valid_utf8(g);
    encode_utf8_valid_utf8(h);
    encode_utf8_decode_utf8(g);
    encode_utf8_decode_utf8(h);
    lemma_word_before("GET"@, rest);
    lemma_word_before("HEAD"@, rest);
    let lines = crlf_parts(rest);
    let a = crlf_parts(g);
    let b = crlf_parts(h);
    let words = parts(lines[0], ' ');
    let p = parts(a[0], ' ');
    let q = parts(b[0], ' ');
    assert(p.len() == q.len() && p.len() == words.len() + 1);
    assert forall|j: int| 1 <= j < p.len() implies #[trigger] p[j] == q[j] by {
        assert(p[j] == words[j - 1]);
        assert(q[j] == words[j - 1]);
    }
    assert(p[0] == "GET"@ && q[0] == "HEAD"@);
    assert("GET"@.len() != "HEAD"@.len());
    assert(line_refused(a[0]) == line_refused(b[0]));
    assert forall|j: int| 1 <= j < a.len() implies #[trigger] a[j] == b[j] by {
        assert(a[j] == lines.skip(1)[j - 1]);
        assert(b[j] == lines.skip(1)[j - 1]);
    }
    lemma_fields_alike(a, b, 1, no_fields(p[2] == "HTTP/1.1"@));
}

/// In a strictly framed text, a carriage return stands only before a line feed.
proof fn lemma_framed_text(text: Seq<char>, i: int)
    requires
        strictly_framed(encode_utf8(text)),
        0 <= i < text.len(),
        text[i] == '\r',
    ensures
        i + 1 < text.len(),
        text[i + 1] == '\n',
{
    let a = text.take(i);
    let b = text.skip(i + 1);
    let c = seq!['\r'];
    assert(text =~= a + c + b);
    lemma_encode_concat(a + c, b);
    lemma_encode_concat(a, c);
    is_ascii_chars_encode_utf8(c);
    let bytes = encode_utf8(text);
    let k = encode_utf8(a).len() as int;
    assert(encode_utf8(c) =~= seq![0x0du8]);
    assert(bytes[k] == 0x0d);
    assert(framed_at(bytes, k));
    assert(bytes[k + 1] == encode_utf8(b)[0]);
    assert(b.len() > 0) by {
        if b.len() == 0 {
            assert(encode_utf8(b) =~= seq![]);
        }
    }
    lemma_scalar_bytes(b[0]);
    assert(encode_utf8(b)[0] == encode_scalar(b[0] as u32)[0]);
    assert(b[0] == text[i + 1]);
    assert(encode_utf8(b)[0] == 0x0a);
    lemma_same_char(b[0], '\n');
}

/// A character is known by its number.
proof fn lemma_same_char(c: char, d: char)
    requires
        c as u32 == d as u32,
    ensures
        c == d,
{
}

/// The lines of a text whose carriage returns all stand before line feeds hold
/// none.
proof fn lemma_lines_hold_no_cr(s: Seq<char>, j: int)
    requires
        forall|i: int|
            0 <= i < s.len() && #[trigger] s[i] == '\r' ==> i + 1 < s.len() && s[i + 1] == '\n',
        0 <= j < crlf_parts(s).len(),
    ensures
        no_cr(crlf_parts(s)[j]),
    decreases s.len(),
{
    reveal_strlit("\r\n");
    let t = "\r\n"@;
    lemma_first_run_from(s, t, 0);
    match first_run(s, t) {
        Some(i) => {
            let rest = s.skip(i + 2);
            assert(s.subrange(i, i + 2)[0] == s[i]);
            if j == 0 {
                let l = s.take(i);
                assert forall|k: int| 0 <= k < l.len() implies #[trigger] l[k] != '\r' by {
                    if l[k] == '\r' {
                        assert(s[k] == '\r');
                        assert(s.subrange(k, k + 2) =~= t);
                    }
                }
                assert(crlf_parts(s)[0] == l);
            } else {
                assert forall|k: int| 0 <= k < rest.len() && #[trigger] rest[k] == '\r' implies k
                    + 1 < rest.len() && rest[k + 1] == '\n' by {
                    assert(s[k + i + 2] == '\r');
                }
                lemma_lines_hold_no_cr(rest, j - 1);
                assert(crlf_parts(s)[j] == crlf_parts(rest)[j - 1]);
            }
        },
        None => {
            assert forall|k: int| 0 <= k < s.len() implies #[trigger] s[k] != '\r' by {
                if s[k] == '\r' {
                    assert(s.subrange(k, k + 2) =~= t);
                }
            }
        },
    }
}

/// Trimming brings in no carriage return.
pub proof fn lemma_trimmed_no_cr(s: Seq<char>)
    requires
        no_cr(s),
    ensures
        no_cr(trimmed(s)),
{
    lemma_trimmed_start_no_cr(s);
    lemma_trimmed_end_no_cr(trimmed_start(s));
}

proof fn lemma_trimmed_start_no_cr(s: Seq<char>)
    requires
        no_cr(s),
    ensures
        no_cr(trimmed_start(s)),
    decreases s.len(),
{
    if s.len() > 0 {
        lemma_trimmed_start_no_cr(s.skip(1));
    }
}

proof fn lemma_trimmed_end_no_cr(s: Seq<char>)
    requires
        no_cr(s),
    ensures
        no_cr(trimmed_end(s)),
    decreases s.len(),
{
    if s.len() > 0 {
        lemma_trimmed_end_no_cr(s.drop_last());
    }
}

/// A host that is read from lines without carriage returns holds none.
proof fn lemma_fields_no_cr(lines: Seq<Seq<char>>, i: int, f: FieldsModel)
    requires
        forall|j: int| 0 <= j < lines.len() ==> no_cr(#[trigger] lines[j]),
        no_cr(f.host),
    ensures
        fields_read(lines, i, f) matches Some(g) ==> no_cr(g.host),
    decreases lines.len() - i,
{
    if 0 <= i < lines.len() && lines[i].len() > 0 {
        if let Some(g) = field_read(f, lines[i]) {
            lemma_first_of(lines[i], ':');
            let (_, raw) = cut(lines[i], ':')->0;
            assert(no_cr(raw)) by {
                let k = first_of(lines[i], ':')->0;
                assert forall|m: int| 0 <= m < raw.len() implies #[trigger] raw[m] != '\r' by {
                    assert(raw[m] == lines[i][m + k + 1]);
                }
            }
            lemma_trimmed_no_cr(raw);
            lemma_fields_no_cr(lines, i + 1, g);
        }
    }
}

/// The host of a request that is taken stays on its line.
pub proof fn lemma_host_no_cr(head: Seq<u8>)
    ensures
        request_of(head) matches Ok(rq) ==> no_cr(rq.host),
{
    if request_of(head) is Ok {
        reveal_strlit("");
        let text = text_of(head)->0;
        decode_utf8_encode_utf8(head);
        let lines = crlf_parts(text);
        assert forall|i: int| 0 <= i < text.len() && #[trigger] text[i] == '\r' implies i + 1
            < text.len() && text[i + 1] == '\n' by {
            lemma_framed_text(text, i);
        }
        assert forall|j: int| 0 <= j < lines.len() implies no_cr(#[trigger] lines[j]) by {
            lemma_lines_hold_no_cr(text, j);
        }
        lemma_fields_no_cr(lines, 1, no_fields(parts(lines[0], ' ')[2] == "HTTP/1.1"@));
    }
}

// ------------------------------------------------------------- what heads mean

/// A character that a line of a head may hold: a printable one of ASCII, or a tab.
pub open spec fn is_line_char(c: char) -> bool {
    c == '\t' || ' ' <= c <= '~'
}

/// A line that a head may hold.
pub open spec fn is_line(s: Seq<char>) -> bool {
    forall|i: int| 0 <= i < s.len() ==> is_line_char(#[trigger] s[i])
}

/// A head of some lines: each with its line break, and the blank line at the end.
pub open spec fn head_of(lines: Seq<Seq<char>>) -> Seq<char>
    decreases lines.len(),
{
    if lines.len() == 0 {
        seq!['\r', '\n']
    } else {
        lines[0] + seq!['\r', '\n'] + head_of(lines.skip(1))
    }
}

proof fn lemma_lines_front(line: Seq<char>, rest: Seq<char>)
    requires
        is_line(line),
    ensures
        crlf_parts(line + seq!['\r', '\n'] + rest) == seq![line] + crlf_parts(rest),
{
    reveal_strlit("\r\n");
    let t = "\r\n"@;
    let s = line + seq!['\r', '\n'] + rest;
    assert(t =~= seq!['\r', '\n']);
    let n = line.len() as int;
    assert(s.subrange(n, n + 2) =~= t);
    lemma_first_run_from(s, t, 0);
    let i = first_run(s, t)->0;
    assert(first_run(s, t) is Some);
    assert(i == n) by {
        if i < n {
            assert(s.subrange(i, i + 2)[0] == line[i]);
            assert(is_line_char(line[i]));
        }
        if n < i {
            assert(s.subrange(n, n + t.len()) != t);
        }
    }
    assert(s.take(n) =~= line);
    assert(s.skip(n + 2) =~= rest);
}

proof fn lemma_framed_line(x: Seq<u8>, rest: Seq<u8>)
    requires
        forall|i: int| 0 <= i < x.len() ==> 0x20 <= (#[trigger] x[i]) < 0x7f || x[i] == 0x09,
        strictly_framed(rest),
    ensures
        strictly_framed(x + seq![0x0du8, 0x0a] + rest),
{
    let s = x + seq![0x0du8, 0x0a] + rest;
    let n = x.len() as int;
    assert(s[n] == 0x0d && s[n + 1] == 0x0a);
    assert forall|i: int| 0 <= i < s.len() implies #[trigger] framed_at(s, i) by {
        if i < n {
            assert(s[i] == x[i]);
        } else if i >= n + 2 {
            let j = i - n - 2;
            assert(framed_at(rest, j));
            assert(s[i] == rest[j]);
            if i + 1 < s.len() {
                assert(s[i + 1] == rest[j + 1]);
            }
            if j > 0 {
                assert(s[i - 1] == rest[j - 1]);
            }
        }
    }
}

/// A head is read line by line: of plain lines, each with its line break and with a
/// blank line behind them, the parts are these lines and the blank one, and the head
/// is well framed.
pub proof fn law_heads_are_read_line_by_line(lines: Seq<Seq<char>>)
    requires
        forall|i: int| 0 <= i < lines.len() ==> is_line(#[trigger] lines[i]),
    ensures
        crlf_parts(head_of(lines)) == lines + seq![seq![], seq![]],
        strictly_framed(encode_utf8(head_of(lines))),
        text_of(encode_utf8(head_of(lines))) == Some(head_of(lines)),
    decreases lines.len(),
{
    let text = head_of(lines);
    encode_utf8_valid_utf8(text);
    encode_utf8_decode_utf8(text);
    if lines.len() == 0 {
        let none = Seq::<char>::empty();
        lemma_lines_front(none, none);
        assert(none + seq!['\r', '\n'] + none =~= text);
        reveal_strlit("\r\n");
        lemma_first_run_from(none, "\r\n"@, 0);
        assert(crlf_parts(none) =~= seq![none]);
        assert(crlf_parts(text) =~= lines + seq![seq![], seq![]]);
        is_ascii_chars_encode_utf8(text);
        assert(encode_utf8(text) =~= seq![] + seq![0x0du8, 0x0a] + seq![]);
        lemma_framed_line(seq![], seq![]);
    } else {
        let line = lines[0];
        let rest = lines.skip(1);
        assert(is_line(line));
        assert forall|i: int| 0 <= i < rest.len() implies is_line(#[trigger] rest[i]) by {
            assert(rest[i] == lines[i + 1]);
        }
        law_heads_are_read_line_by_line(rest);
        lemma_lines_front(line, head_of(rest));
        assert(crlf_parts(text) =~= lines + seq![seq![], seq![]]);
        lemma_line_bytes(line);
        let brk: Seq<char> = seq!['\r', '\n'];
        is_ascii_chars_encode_utf8(brk);
        assert(encode_utf8(brk) =~= seq![0x0du8, 0x0a]);
        lemma_encode_concat(line + brk, head_of(rest));
        lemma_encode_concat(line, brk);
        lemma_framed_line(encode_utf8(line), encode_utf8(head_of(rest)));
    }
}

proof fn lemma_line_bytes(line: Seq<char>)
    requires
        is_line(line),
    ensures
        forall|i: int|
            0 <= i < encode_utf8(line).len() ==> 0x20 <= (#[trigger] encode_utf8(line)[i]) < 0x7f
                || encode_utf8(line)[i] == 0x09,
{
    assert forall|i: int| 0 <= i < line.len() implies '\0' <= #[trigger] line[i] <= '\u{7f}' by {
        assert(is_line_char(line[i]));
    }
    is_ascii_chars_encode_utf8(line);
    assert forall|i: int| 0 <= i < encode_utf8(line).len() implies 0x20 <= (
    #[trigger] encode_utf8(line)[i]) < 0x7f || encode_utf8(line)[i] == 0x09 by {
        assert(is_line_char(line[i]));
    }
}

/// Some field lines read one after the other.
pub open spec fn all_read(f: FieldsModel, fields: Seq<Seq<char>>) -> Option<FieldsModel>
    decreases fields.len(),
{
    if fields.len() == 0 {
        Some(f)
    } else {
        match all_read(f, fields.drop_last()) {
            Some(g) => field_read(g, fields.last()),
            None => None,
        }
    }
}

proof fn lemma_all_read_first(f: FieldsModel, fields: Seq<Seq<char>>)
    requires
        fields.len() > 0,
    ensures
        all_read(f, fields) == (match field_read(f, fields[0]) {
            Some(g) => all_read(g, fields.skip(1)),
            None => None,
        }),
    decreases fields.len(),
{
    if fields.len() == 1 {
        reveal_with_fuel(all_read, 2);
        assert(fields.drop_last() =~= seq![]);
        assert(fields.skip(1) =~= seq![]);
    } else {
        lemma_all_read_first(f, fields.drop_last());
        assert(fields.drop_last().skip(1) =~= fields.skip(1).drop_last());
        assert(fields.skip(1).last() == fields.last());
    }
}

proof fn lemma_fields_read_all(
    lines: Seq<Seq<char>>,
    i: int,
    fields: Seq<Seq<char>>,
    f: FieldsModel,
)
    requires
        0 <= i,
        i + fields.len() < lines.len(),
        forall|j: int| 0 <= j < fields.len() ==> #[trigger] fields[j] == lines[i + j],
        forall|j: int| 0 <= j < fields.len() ==> (#[trigger] fields[j]).len() > 0,
        lines[i + fields.len()].len() == 0,
    ensures
        fields_read(lines, i, f) == all_read(f, fields),
    decreases fields.len(),
{
    if fields.len() > 0 {
        assert(fields[0] == lines[i + 0]);
        lemma_all_read_first(f, fields);
        let rest = fields.skip(1);
        assert forall|j: int| 0 <= j < rest.len() implies #[trigger] rest[j] == lines[i + 1 + j]
            && rest[j].len() > 0 by {
            assert(rest[j] == fields[j + 1]);
            assert(fields[j + 1] == lines[i + (j + 1)]);
        }
        match field_read(f, fields[0]) {
            Some(g) => lemma_fields_read_all(lines, i + 1, rest, g),
            None => {},
        }
    }
}

/// A request is its first line and its fields. The method, the target and the
/// version stand in the line, one blank between each two; the fields are read in
/// order; a field that cannot be read refuses the request, and so does one that
/// announces a body. By default a connection is kept in version 1.1, and closed in
/// 1.0.
pub proof fn law_a_request_is_its_line_and_its_fields(
    method: Seq<char>,
    target: Seq<char>,
    version: Seq<char>,
    fields: Seq<Seq<char>>,
)
    requires
        is_line(method) && is_line(target),
        method.len() > 0 && target.len() > 0,
        !method.contains(' ') && !target.contains(' ') && !target.contains('\t'),
        version == "HTTP/1.1"@ || version == "HTTP/1.0"@,
        forall|i: int|
            0 <= i < fields.len() ==> is_line(#[trigger] fields[i]) && fields[i].len() > 0,
    ensures
        ({
            let line = method + seq![' '] + target + seq![' '] + version;
            let r = request_of(encode_utf8(head_of(seq![line] + fields)));
            match all_read(no_fields(version == "HTTP/1.1"@), fields) {
                None => r == Err::<RequestModel, bool>(method == "HEAD"@),
                Some(f) => r == (if f.has_body {
                    Err(method == "HEAD"@)
                } else {
                    Ok(
                        RequestModel {
                            is_head: method == "HEAD"@,
                            is_get: method == "GET"@,
                            target,
                            keep_alive: f.keep_alive,
                            accept_enc: f.accept_enc,
                            host: f.host,
                            inm: f.inm,
                        },
                    )
                }),
            }
        }),
{
    reveal_strlit("HTTP/1.1");
    reveal_strlit("HTTP/1.0");
    let line = method + seq![' '] + target + seq![' '] + version;
    let lines = seq![line] + fields;
    assert(is_line(version));
    assert(is_line(line));
    assert forall|i: int| 0 <= i < lines.len() implies is_line(#[trigger] lines[i]) by {
        if i > 0 {
            assert(lines[i] == fields[i - 1]);
        }
    }
    law_heads_are_read_line_by_line(lines);
    let all = crlf_parts(head_of(lines));
    assert(all[0] == line);
    let three = seq![method, target, version];
    assert(!version.contains(' '));
    assert(with_between(three, ' ') =~= line) by {
        reveal_with_fuel(with_between, 4);
        assert(three.skip(1) =~= seq![target, version]);
        assert(three.skip(1).skip(1) =~= seq![version]);
    }
    law_splitting_undoes_joining(three, ' ');
    assert(control_free(target)) by {
        assert forall|i: int| 0 <= i < target.len() implies !is_control(#[trigger] target[i]) by {
            assert(is_line_char(target[i]));
            assert(target.contains(target[i]));
        }
    }
    let f = no_fields(version == "HTTP/1.1"@);
    assert forall|j: int| 0 <= j < fields.len() implies #[trigger] fields[j] == all[1 + j]
        && fields[j].len() > 0 by {}
    assert(all[1 + fields.len() as int].len() == 0);
    lemma_fields_read_all(all, 1, fields, f);
}

/// A request line of another shape is refused: with more or fewer than three words,
/// or with another version. The refusal has no body where the method is HEAD.
pub proof fn law_other_request_lines_are_refused(
    line: Seq<char>,
    fields: Seq<Seq<char>>,
)
    requires
        is_line(line),
        forall|i: int| 0 <= i < fields.len() ==> is_line(#[trigger] fields[i]),
        parts(line, ' ').len() != 3 || (parts(line, ' ')[2] != "HTTP/1.1"@ && parts(line, ' ')[2]
            != "HTTP/1.0"@) || parts(line, ' ')[0].len() == 0 || parts(line, ' ')[1].len() == 0,
    ensures
        request_of(encode_utf8(head_of(seq![line] + fields))) == Err::<RequestModel, bool>(
            parts(line, ' ')[0] == "HEAD"@,
        ),
{
    let lines = seq![line] + fields;
    assert forall|i: int| 0 <= i < lines.len() implies is_line(#[trigger] lines[i]) by {
        if i > 0 {
            assert(lines[i] == fields[i - 1]);
        }
    }
    law_heads_are_read_line_by_line(lines);
    assert(crlf_parts(head_of(lines))[0] == line);
}

/// What each field says. Its name counts whatever its case, and its value without
/// the white space around it. A first host is noted, a second one refuses the
/// request; a length other than nought, and any transfer coding, announce a body;
/// the codings and the validators are those of the last such field; a field of any
/// other name says nothing.
pub proof fn law_what_fields_say(
    f: FieldsModel,
    name: Seq<char>,
    before: Seq<char>,
    value: Seq<char>,
    behind: Seq<char>,
)
    requires
        name.len() > 0,
        !name.contains(':') && !name.contains(' ') && !name.contains('\t'),
        all_white(before) && all_white(behind),
        value.len() > 0 ==> !is_white(value[0]) && !is_white(value.last()),
    ensures
        ({
            let r = field_read(f, name + seq![':'] + before + value + behind);
            let key = lowered(name);
            &&& key == "host"@ && !f.host_seen ==> r == Some(
                FieldsModel { host: value, host_seen: true, ..f },
            )
            &&& key == "host"@ && f.host_seen ==> r is None
            &&& key == "content-length"@ && value == "0"@ ==> r == Some(f)
            &&& key == "content-length"@ && value != "0"@ ==> r == Some(
                FieldsModel { has_body: true, ..f },
            )
            &&& key == "transfer-encoding"@ ==> r == Some(FieldsModel { has_body: true, ..f })
            &&& key == "accept-encoding"@ ==> r == Some(FieldsModel { accept_enc: value, ..f })
            &&& key == "if-none-match"@ ==> r == Some(FieldsModel { inm: value, ..f })
            &&& key == "connection"@ ==> r == Some(
                FieldsModel { keep_alive: connection_wish(parts(value, ','), f.keep_alive), ..f },
            )
            &&& key != "host"@ && key != "content-length"@ && key != "transfer-encoding"@ && key
                != "accept-encoding"@ && key != "if-none-match"@ && key != "connection"@ ==> r
                == Some(f)
        }),
{
    reveal_strlit("host");
    reveal_strlit("content-length");
    reveal_strlit("transfer-encoding");
    reveal_strlit("accept-encoding");
    reveal_strlit("if-none-match");
    reveal_strlit("connection");
    let raw = before + value + behind;
    let line = name + seq![':'] + raw;
    assert(name + seq![':'] + before + value + behind =~= line);
    law_a_cut_is_at_the_first(name, ':', raw);
    law_white_space_around_a_text_does_not_count(before, value, behind);
    assert(line[0] == name[0]);
    assert(name.contains(name[0]));
    assert("host"@.len() == 4 && "content-length"@.len() == 14 && "transfer-encoding"@.len() == 17
        && "accept-encoding"@.len() == 15 && "if-none-match"@.len() == 13 && "connection"@.len()
        == 10);
}

/// A line that is no field refuses the request: one without a colon, one that starts
/// with a blank, and one with a blank in its name or with no name.
pub proof fn law_broken_fields_are_refused(f: FieldsModel, name: Seq<char>, rest: Seq<char>)
    requires
        !name.contains(':'),
    ensures
        field_read(f, name) is None,
        name.len() == 0 || name.contains(' ') || name.contains('\t') ==> field_read(
            f,
            name + seq![':'] + rest,
        ) is None,
        field_read(f, seq![' '] + rest) is None,
        field_read(f, seq!['\t'] + rest) is None,
{
    law_a_cut_is_at_the_first(name, ':', rest);
    assert((seq![' '] + rest)[0] == ' ');
    assert((seq!['\t'] + rest)[0] == '\t');
}

/// The last word about the connection counts, whatever its case and the white space
/// around it; other words say nothing of it.
pub proof fn law_the_last_connection_word_counts(
    tokens: Seq<Seq<char>>,
    word: Seq<char>,
    keep_alive: bool,
)
    ensures
        lowered(trimmed(word)) == "close"@ ==> !connection_wish(tokens.push(word), keep_alive),
        lowered(trimmed(word)) == "keep-alive"@ ==> connection_wish(tokens.push(word), keep_alive),
        lowered(trimmed(word)) != "close"@ && lowered(trimmed(word)) != "keep-alive"@
            ==> connection_wish(tokens.push(word), keep_alive) == connection_wish(
            tokens,
            keep_alive,
        ),
        connection_wish(seq![], keep_alive) == keep_alive,
{
    reveal_strlit("close");
    reveal_strlit("keep-alive");
    assert("close"@.len() == 5 && "keep-alive"@.len() == 10);
    assert(tokens.push(word).drop_last() =~= tokens);
}

/// A request without fields names no host, accepts no coding, and has no copy; only
/// its version says whether the connection is kept.
pub proof fn law_a_bare_request_says_nothing_more(method: Seq<char>, target: Seq<char>)
    requires
        is_line(method) && is_line(target),
        method.len() > 0 && target.len() > 0,
        !method.contains(' ') && !target.contains(' ') && !target.contains('\t'),
    ensures
        ({
            let line = method + seq![' '] + target + seq![' '];
            let newer = request_of(encode_utf8(head_of(seq![line + "HTTP/1.1"@])));
            let older = request_of(encode_utf8(head_of(seq![line + "HTTP/1.0"@])));
            let bare = RequestModel {
                is_head: method == "HEAD"@,
                is_get: method == "GET"@,
                target,
                keep_alive: true,
                accept_enc: seq![],
                host: seq![],
                inm: seq![],
            };
            &&& newer == Ok::<RequestModel, bool>(bare)
            &&& older == Ok::<RequestModel, bool>(RequestModel { keep_alive: false, ..bare })
        }),
{
    let line = method + seq![' '] + target + seq![' '];
    let none: Seq<Seq<char>> = seq![];
    law_a_request_is_its_line_and_its_fields(method, target, "HTTP/1.1"@, none);
    law_a_request_is_its_line_and_its_fields(method, target, "HTTP/1.0"@, none);
    assert(seq![line + "HTTP/1.1"@] + none =~= seq![line + "HTTP/1.1"@]);
    assert(seq![line + "HTTP/1.0"@] + none =~= seq![line + "HTTP/1.0"@]);
    reveal_strlit("");
    reveal_strlit("HTTP/1.1");
    reveal_strlit("HTTP/1.0");
    assert("HTTP/1.1"@[7] != "HTTP/1.0"@[7]);
    assert(""@ =~= seq![]);
}

/// A head is refused where its lines are not all ended by the two bytes that end a
/// line, where it holds another control byte than a tab, and where it is no text.
/// What it asks for is then not read any more, not even whether it is a HEAD.
pub proof fn law_unframed_heads_are_refused(head: Seq<u8>, i: int)
    requires
        0 <= i < head.len(),
    ensures
        head[i] == 0x0a && (i == 0 || head[i - 1] != 0x0d) ==> request_of(head) == Err::<
            RequestModel,
            bool,
        >(false),
        head[i] == 0x0d && (i + 1 == head.len() || head[i + 1] != 0x0a) ==> request_of(head)
            == Err::<RequestModel, bool>(false),
        (head[i] < 0x20 && head[i] != 0x09 && head[i] != 0x0a && head[i] != 0x0d) || head[i]
            == 0x7f ==> request_of(head) == Err::<RequestModel, bool>(false),
        text_of(head) is None ==> request_of(head) == Err::<RequestModel, bool>(false),
{
    if strictly_framed(head) {
        assert(framed_at(head, i));
    }
}

} // verus!
