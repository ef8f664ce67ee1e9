//! Text as a sequence of characters: searching, splitting, trimming, and the
//! rendering and reading of numbers.
//!
//! The rest of the crate reads its input through these functions. A `&str` is
//! unpacked once with [`chars_of`], then worked on as a `&[char]`, whose
//! subranges are slices again.
use vstd::prelude::*;
use vstd::slice::slice_subrange;
use vstd::string::StringExecFns;
use vstd::utf8::encode_utf8;

verus! {

/// `String::push` appends one character.
pub assume_specification[ String::push ](s: &mut String, c: char)
    ensures
        final(s)@ == old(s)@.push(c),
;

// ------------------------------------------------------------- conversions

/// The characters of a string, in order.
pub fn chars_of(s: &str) -> (r: Vec<char>)
    ensures
        r@ == s@,
{
    let mut out: Vec<char> = Vec::new();
    for c in it: s.chars()
        invariant
            out@ == it.seq().take(it.index() as int),
            it.seq() == s@,
    {
        out.push(c);
    }
    out
}

/// The string that a run of characters spells.
pub fn string_of(s: &[char]) -> (r: String)
    ensures
        r@ == s@,
{
    let mut out = String::new();
    let mut i: usize = 0;
    while i < s.len()
        invariant
            0 <= i <= s.len(),
            out@ == s@.take(i as int),
        decreases s.len() - i,
    {
        out.push(s[i]);
        i = i + 1;
    }
    assert(s@.take(s.len() as int) == s@);
    out
}

/// Appends a run of characters to a string.
pub fn push_chars(out: &mut String, s: &[char])
    ensures
        final(out)@ == old(out)@ + s@,
{
    let mut i: usize = 0;
    while i < s.len()
        invariant
            0 <= i <= s.len(),
            out@ == old(out)@ + s@.take(i as int),
        decreases s.len() - i,
    {
        out.push(s[i]);
        assert(s@.take(i as int).push(s@[i as int]) == s@.take(i + 1));
        i = i + 1;
    }
    assert(s@.take(s.len() as int) == s@);
}

/// A run of characters between two written-out texts.
pub fn between(before: &str, s: &[char], after: &str) -> (r: String)
    ensures
        r@ == before@ + s@ + after@,
{
    let mut out = before.to_string();
    push_chars(&mut out, s);
    out.append(after);
    out
}

/// The texts that a list of strings holds.
pub open spec fn strings(v: Seq<String>) -> Seq<Seq<char>> {
    Seq::new(v.len(), |i: int| v[i]@)
}

/// The text of a string that may be absent.
pub open spec fn opt_text(o: Option<String>) -> Option<Seq<char>> {
    match o {
        Some(s) => Some(s@),
        None => None,
    }
}

// ---------------------------------------------------------- character classes

/// The Unicode `White_Space` characters, which surround no value.
pub open spec fn is_white(c: char) -> bool {
    let u = c as u32;
    ||| 0x09 <= u <= 0x0d
    ||| u == 0x20
    ||| u == 0x85
    ||| u == 0xa0
    ||| u == 0x1680
    ||| 0x2000 <= u <= 0x200a
    ||| u == 0x2028
    ||| u == 0x2029
    ||| u == 0x202f
    ||| u == 0x205f
    ||| u == 0x3000
}

/// Decides [`is_white`].
pub fn white(c: char) -> (r: bool)
    ensures
        r == is_white(c),
{
    let u: u32 = c as u32;
    (0x09 <= u && u <= 0x0d) || u == 0x20 || u == 0x85 || u == 0xa0 || u == 0x1680 || (0x2000 <= u
        && u <= 0x200a) || u == 0x2028 || u == 0x2029 || u == 0x202f || u == 0x205f || u == 0x3000
}

/// The ASCII control characters, DEL among them.
pub open spec fn is_control(c: char) -> bool {
    (c as u32) < 0x20 || c as u32 == 0x7f
}

/// No character of the text is an ASCII control character.
pub open spec fn control_free(s: Seq<char>) -> bool {
    forall|i: int| 0 <= i < s.len() ==> !is_control(#[trigger] s[i])
}

/// Decides [`control_free`].
pub fn is_control_free(s: &[char]) -> (r: bool)
    ensures
        r == control_free(s@),
{
    let mut i: usize = 0;
    while i < s.len()
        invariant
            0 <= i <= s.len(),
            control_free(s@.take(i as int)),
        decreases s.len() - i,
    {
        let u: u32 = s[i] as u32;
        if u < 0x20 || u == 0x7f {
            assert(is_control(s@[i as int]));
            return false;
        }
        assert forall|j: int| 0 <= j < i + 1 implies !is_control(#[trigger] s@.take(i + 1)[j]) by {
            if j < i {
                assert(s@.take(i as int)[j] == s@[j]);
            }
        }
        i = i + 1;
    }
    assert(s@.take(s.len() as int) == s@);
    true
}

/// The ASCII lower-case form of one character.
pub open spec fn lower(c: char) -> char {
    if 0x41 <= c as u32 <= 0x5a {
        (c as u32 + 32) as char
    } else {
        c
    }
}

/// The ASCII upper-case form of one character.
pub open spec fn upper(c: char) -> char {
    if 0x61 <= c as u32 <= 0x7a {
        (c as u32 - 32) as char
    } else {
        c
    }
}

/// A text with its ASCII letters lowered and everything else kept.
pub open spec fn lowered(s: Seq<char>) -> Seq<char> {
    Seq::new(s.len(), |i: int| lower(s[i]))
}

/// A text with its ASCII letters raised and everything else kept.
pub open spec fn uppered(s: Seq<char>) -> Seq<char> {
    Seq::new(s.len(), |i: int| upper(s[i]))
}

/// Lowers an ASCII letter.
pub fn lower_char(c: char) -> (r: char)
    ensures
        r == lower(c),
{
    let u: u32 = c as u32;
    if 0x41 <= u && u <= 0x5a {
        (u as u8 + 32) as char
    } else {
        c
    }
}

fn upper_char(c: char) -> (r: char)
    ensures
        r == upper(c),
{
    let u: u32 = c as u32;
    if 0x61 <= u && u <= 0x7a {
        (u as u8 - 32) as char
    } else {
        c
    }
}

/// Lowers the ASCII letters of a text.
pub fn to_lower(s: &[char]) -> (r: Vec<char>)
    ensures
        r@ == lowered(s@),
{
    let mut out: Vec<char> = Vec::new();
    let mut i: usize = 0;
    while i < s.len()
        invariant
            0 <= i <= s.len(),
            out@ == lowered(s@).take(i as int),
        decreases s.len() - i,
    {
        out.push(lower_char(s[i]));
        i = i + 1;
    }
    out
}

/// Raises the ASCII letters of a text.
pub fn to_upper(s: &[char]) -> (r: Vec<char>)
    ensures
        r@ == uppered(s@),
{
    let mut out: Vec<char> = Vec::new();
    let mut i: usize = 0;
    while i < s.len()
        invariant
            0 <= i <= s.len(),
            out@ == uppered(s@).take(i as int),
        decreases s.len() - i,
    {
        out.push(upper_char(s[i]));
        i = i + 1;
    }
    out
}

// ------------------------------------------------------------------ comparing

/// Whether two runs of characters are the same text.
pub fn same(a: &[char], b: &[char]) -> (r: bool)
    ensures
        r == (a@ == b@),
{
    if a.len() != b.len() {
        return false;
    }
    let mut i: usize = 0;
    while i < a.len()
        invariant
            0 <= i <= a.len(),
            a.len() == b.len(),
            forall|j: int| 0 <= j < i ==> a@[j] == b@[j],
        decreases a.len() - i,
    {
        if a[i] != b[i] {
            return false;
        }
        i = i + 1;
    }
    assert(a@ =~= b@);
    true
}

/// Whether a run of characters spells `word`.
pub fn is_word(s: &[char], word: &str) -> (r: bool)
    ensures
        r == (s@ == word@),
{
    same(s, chars_of(word).as_slice())
}

/// Whether two strings are the same text.
pub fn same_str(a: &str, b: &str) -> (r: bool)
    ensures
        r == (a@ == b@),
{
    is_word(chars_of(a).as_slice(), b)
}

/// Whether a run of characters spells `word`, ASCII case aside. `word` is
/// given in lower case.
pub fn is_word_ci(s: &[char], word: &str) -> (r: bool)
    ensures
        r == (lowered(s@) == word@),
{
    is_word(to_lower(s).as_slice(), word)
}

/// What follows a given prefix, if the text starts with it.
pub open spec fn after<T>(s: Seq<T>, prefix: Seq<T>) -> Option<Seq<T>> {
    if prefix.is_prefix_of(s) {
        Some(s.skip(prefix.len() as int))
    } else {
        None
    }
}

/// What precedes a given last character, if the text ends with it.
pub open spec fn before_last(s: Seq<char>, c: char) -> Option<Seq<char>> {
    if s.len() > 0 && s.last() == c {
        Some(s.drop_last())
    } else {
        None
    }
}

/// Strips a prefix.
pub fn strip<'a>(s: &'a [char], prefix: &[char]) -> (r: Option<&'a [char]>)
    ensures
        match r {
            Some(t) => after(s@, prefix@) == Some(t@),
            None => after(s@, prefix@) is None,
        },
{
    if prefix.len() <= s.len() && same(slice_subrange(s, 0, prefix.len()), prefix) {
        Some(slice_subrange(s, prefix.len(), s.len()))
    } else {
        None
    }
}

/// Strips a prefix that is written out.
pub fn strip_word<'a>(s: &'a [char], prefix: &str) -> (r: Option<&'a [char]>)
    ensures
        match r {
            Some(t) => after(s@, prefix@) == Some(t@),
            None => after(s@, prefix@) is None,
        },
{
    strip(s, chars_of(prefix).as_slice())
}

/// Whether a text starts with `prefix`.
pub fn starts_with(s: &[char], prefix: &str) -> (r: bool)
    ensures
        r == prefix@.is_prefix_of(s@),
{
    strip_word(s, prefix).is_some()
}

/// Whether a text ends with `suffix`.
pub fn ends_with(s: &[char], suffix: &str) -> (r: bool)
    ensures
        r == suffix@.is_suffix_of(s@),
{
    let t = chars_of(suffix);
    if t.len() <= s.len() {
        same(slice_subrange(s, s.len() - t.len(), s.len()), t.as_slice())
    } else {
        false
    }
}

/// Strips one last character.
pub fn strip_last(s: &[char], c: char) -> (r: Option<&[char]>)
    ensures
        match r {
            Some(t) => before_last(s@, c) == Some(t@),
            None => before_last(s@, c) is None,
        },
{
    if s.len() > 0 && s[s.len() - 1] == c {
        Some(slice_subrange(s, 0, s.len() - 1))
    } else {
        None
    }
}

// ------------------------------------------------------------------- trimming

/// A text without its leading white space.
pub open spec fn trimmed_start(s: Seq<char>) -> Seq<char>
    decreases s.len(),
{
    if s.len() > 0 && is_white(s[0]) {
        trimmed_start(s.skip(1))
    } else {
        s
    }
}

/// A text without its trailing white space.
pub open spec fn trimmed_end(s: Seq<char>) -> Seq<char>
    decreases s.len(),
{
    if s.len() > 0 && is_white(s.last()) {
        trimmed_end(s.drop_last())
    } else {
        s
    }
}

/// A text without the white space around it.
pub open spec fn trimmed(s: Seq<char>) -> Seq<char> {
    trimmed_end(trimmed_start(s))
}

/// Trims the front.
pub fn trim_start(s: &[char]) -> (r: &[char])
    ensures
        r@ == trimmed_start(s@),
{
    let mut i: usize = 0;
    assert(s@.skip(0) == s@);
    while i < s.len() && white(s[i])
        invariant
            0 <= i <= s.len(),
            trimmed_start(s@.skip(i as int)) == trimmed_start(s@),
        decreases s.len() - i,
    {
        assert(s@.skip(i as int).skip(1) == s@.skip(i + 1));
        i = i + 1;
    }
    assert(s@.skip(i as int) == s@.subrange(i as int, s.len() as int));
    slice_subrange(s, i, s.len())
}

/// Trims the end.
pub fn trim_end(s: &[char]) -> (r: &[char])
    ensures
        r@ == trimmed_end(s@),
{
    let mut j: usize = s.len();
    assert(s@.take(s.len() as int) == s@);
    while j > 0 && white(s[j - 1])
        invariant
            0 <= j <= s.len(),
            trimmed_end(s@.take(j as int)) == trimmed_end(s@),
        decreases j,
    {
        assert(s@.take(j as int).drop_last() == s@.take(j - 1));
        j = j - 1;
    }
    slice_subrange(s, 0, j)
}

/// Trims both ends.
pub fn trim(s: &[char]) -> (r: &[char])
    ensures
        r@ == trimmed(s@),
{
    trim_end(trim_start(s))
}

// ------------------------------------------------------------------ searching

/// Where a character first stands.
pub open spec fn first_of(s: Seq<char>, c: char) -> Option<int>
    decreases s.len(),
{
    if s.len() == 0 {
        None
    } else if s[0] == c {
        Some(0)
    } else {
        match first_of(s.skip(1), c) {
            Some(i) => Some(i + 1),
            None => None,
        }
    }
}

/// Where a character last stands.
pub open spec fn last_of(s: Seq<char>, c: char) -> Option<int>
    decreases s.len(),
{
    if s.len() == 0 {
        None
    } else if s.last() == c {
        Some(s.len() - 1)
    } else {
        last_of(s.drop_last(), c)
    }
}

/// [`first_of`] is the least index that holds the character.
pub proof fn lemma_first_of(s: Seq<char>, c: char)
    ensures
        match first_of(s, c) {
            Some(i) => 0 <= i < s.len() && s[i] == c && forall|j: int| 0 <= j < i ==> s[j] != c,
            None => forall|j: int| 0 <= j < s.len() ==> s[j] != c,
        },
    decreases s.len(),
{
    if s.len() > 0 && s[0] != c {
        lemma_first_of(s.skip(1), c);
        assert forall|j: int| 1 <= j < s.len() implies s[j] == s.skip(1)[j - 1] by {}
    }
}

/// The least index that holds the character is [`first_of`].
pub proof fn lemma_first_of_is(s: Seq<char>, c: char, i: int)
    requires
        0 <= i < s.len(),
        s[i] == c,
        forall|j: int| 0 <= j < i ==> s[j] != c,
    ensures
        first_of(s, c) == Some(i),
{
    lemma_first_of(s, c);
}

/// [`last_of`] is the greatest index that holds the character.
pub proof fn lemma_last_of(s: Seq<char>, c: char)
    ensures
        match last_of(s, c) {
            Some(i) => 0 <= i < s.len() && s[i] == c && forall|j: int| i < j < s.len() ==> s[j] != c,
            None => forall|j: int| 0 <= j < s.len() ==> s[j] != c,
        },
    decreases s.len(),
{
    if s.len() > 0 && s.last() != c {
        lemma_last_of(s.drop_last(), c);
        assert forall|j: int| 0 <= j < s.len() - 1 implies s[j] == s.drop_last()[j] by {}
    }
}

/// Finds the first occurrence of a character.
pub fn find_char(s: &[char], c: char) -> (r: Option<usize>)
    ensures
        match r {
            Some(i) => first_of(s@, c) == Some(i as int) && i < s.len(),
            None => first_of(s@, c) is None,
        },
{
    let mut i: usize = 0;
    while i < s.len()
        invariant
            0 <= i <= s.len(),
            forall|j: int| 0 <= j < i ==> s@[j] != c,
        decreases s.len() - i,
    {
        if s[i] == c {
            proof {
                lemma_first_of_is(s@, c, i as int);
            }
            return Some(i);
        }
        i = i + 1;
    }
    proof {
        lemma_first_of(s@, c);
    }
    None
}

/// Finds the last occurrence of a character.
pub fn rfind_char(s: &[char], c: char) -> (r: Option<usize>)
    ensures
        match r {
            Some(i) => last_of(s@, c) == Some(i as int) && i < s.len(),
            None => last_of(s@, c) is None,
        },
{
    proof {
        lemma_last_of(s@, c);
    }
    let mut j: usize = s.len();
    while j > 0
        invariant
            0 <= j <= s.len(),
            forall|k: int| j <= k < s.len() ==> s@[k] != c,
            match last_of(s@, c) {
                Some(i) => 0 <= i < s.len() && s@[i] == c && forall|k: int|
                    i < k < s.len() ==> s@[k] != c,
                None => forall|k: int| 0 <= k < s.len() ==> s@[k] != c,
            },
        decreases j,
    {
        if s[j - 1] == c {
            return Some(j - 1);
        }
        j = j - 1;
    }
    None
}

/// Whether a character occurs at all.
pub fn has_char(s: &[char], c: char) -> (r: bool)
    ensures
        r == s@.contains(c),
{
    proof {
        lemma_first_of(s@, c);
    }
    find_char(s, c).is_some()
}

/// The two parts of a text around the first occurrence of a character.
pub open spec fn cut(s: Seq<char>, c: char) -> Option<(Seq<char>, Seq<char>)> {
    match first_of(s, c) {
        Some(i) => Some((s.take(i), s.skip(i + 1))),
        None => None,
    }
}

/// The two parts of a text around the last occurrence of a character.
pub open spec fn rcut(s: Seq<char>, c: char) -> Option<(Seq<char>, Seq<char>)> {
    match last_of(s, c) {
        Some(i) => Some((s.take(i), s.skip(i + 1))),
        None => None,
    }
}

/// Splits at the first occurrence of a character.
pub fn split_once(s: &[char], c: char) -> (r: Option<(&[char], &[char])>)
    ensures
        match r {
            Some(p) => cut(s@, c) == Some((p.0@, p.1@)),
            None => cut(s@, c) is None,
        },
{
    match find_char(s, c) {
        Some(i) => Some((slice_subrange(s, 0, i), slice_subrange(s, i + 1, s.len()))),
        None => None,
    }
}

/// Splits at the last occurrence of a character.
pub fn rsplit_once(s: &[char], c: char) -> (r: Option<(&[char], &[char])>)
    ensures
        match r {
            Some(p) => rcut(s@, c) == Some((p.0@, p.1@)),
            None => rcut(s@, c) is None,
        },
{
    match rfind_char(s, c) {
        Some(i) => Some((slice_subrange(s, 0, i), slice_subrange(s, i + 1, s.len()))),
        None => None,
    }
}

/// Where a run of items first occurs, searching from index `i` on.
pub open spec fn first_run_from<T>(hay: Seq<T>, needle: Seq<T>, i: int) -> Option<int>
    decreases hay.len() - i + 1,
{
    if i < 0 || i + needle.len() > hay.len() {
        None
    } else if hay.subrange(i, i + needle.len()) == needle {
        Some(i)
    } else {
        first_run_from(hay, needle, i + 1)
    }
}

/// Where a run of items first occurs.
pub open spec fn first_run<T>(hay: Seq<T>, needle: Seq<T>) -> Option<int> {
    first_run_from(hay, needle, 0)
}

/// Where a run is found, it is, and nowhere before.
pub proof fn lemma_first_run_from<T>(hay: Seq<T>, needle: Seq<T>, i: int)
    requires
        0 <= i,
    ensures
        match first_run_from(hay, needle, i) {
            Some(j) => i <= j && j + needle.len() <= hay.len() && hay.subrange(
                j,
                j + needle.len(),
            ) == needle && forall|k: int|
                i <= k < j ==> #[trigger] hay.subrange(k, k + needle.len()) != needle,
            None => forall|k: int|
                i <= k && k + needle.len() <= hay.len() ==> #[trigger] hay.subrange(
                    k,
                    k + needle.len(),
                ) != needle,
        },
    decreases hay.len() - i + 1,
{
    if i + needle.len() <= hay.len() && hay.subrange(i, i + needle.len()) != needle {
        lemma_first_run_from(hay, needle, i + 1);
    }
}

/// Finds the first occurrence of a run of characters.
pub fn find_text(s: &[char], needle: &[char]) -> (r: Option<usize>)
    ensures
        match r {
            Some(i) => first_run(s@, needle@) == Some(i as int) && i + needle.len() <= s.len(),
            None => first_run(s@, needle@) is None,
        },
{
    let mut i: usize = 0;
    while needle.len() <= s.len() - i
        invariant
            0 <= i <= s.len(),
            first_run_from(s@, needle@, i as int) == first_run(s@, needle@),
        decreases s.len() - i,
    {
        if same(slice_subrange(s, i, i + needle.len()), needle) {
            return Some(i);
        }
        if i == s.len() {
            assert(needle@ =~= s@.subrange(i as int, i + needle.len()));
        }
        i = i + 1;
    }
    None
}

/// Whether a run of characters occurs at all.
pub fn has_text(s: &[char], needle: &str) -> (r: bool)
    ensures
        r == first_run(s@, needle@) is Some,
{
    find_text(s, chars_of(needle).as_slice()).is_some()
}

// ------------------------------------------------------------------ splitting

/// The texts that a list of slices spells.
pub open spec fn texts(v: Seq<&[char]>) -> Seq<Seq<char>> {
    Seq::new(v.len(), |i: int| v[i]@)
}

/// The parts of a text between the occurrences of a separator: one part more
/// than there are separators.
pub open spec fn parts(s: Seq<char>, sep: char) -> Seq<Seq<char>>
    decreases s.len(),
{
    match first_of(s, sep) {
        Some(i) => {
            proof {
                lemma_first_of(s, sep);
            }
            seq![s.take(i)] + parts(s.skip(i + 1), sep)
        },
        None => seq![s],
    }
}

/// Splits at every occurrence of a separator.
pub fn split(s: &[char], sep: char) -> (r: Vec<&[char]>)
    ensures
        texts(r@) == parts(s@, sep),
{
    let mut out: Vec<&[char]> = Vec::new();
    let mut rest: &[char] = s;
    loop
        invariant
            texts(out@) + parts(rest@, sep) == parts(s@, sep),
        decreases rest.len(),
    {
        match split_once(rest, sep) {
            Some((head, tail)) => {
                proof {
                    lemma_first_of(rest@, sep);
                    assert(texts(out@.push(head)) == texts(out@).push(head@));
                    assert(texts(out@).push(head@) + parts(tail@, sep) == texts(out@) + parts(
                        rest@,
                        sep,
                    ));
                }
                out.push(head);
                rest = tail;
            },
            None => {
                proof {
                    assert(texts(out@.push(rest)) == texts(out@).push(rest@));
                    assert(texts(out@).push(rest@) == texts(out@) + seq![rest@]);
                }
                out.push(rest);
                return out;
            },
        }
    }
}

/// The lines of a text. A line ends at a line feed, which it does not keep; a
/// carriage return just before that line feed goes too. What follows the last
/// line feed is a line of its own unless it is empty.
pub open spec fn lines_of(s: Seq<char>) -> Seq<Seq<char>>
    decreases s.len(),
{
    if s.len() == 0 {
        seq![]
    } else {
        match first_of(s, '\n') {
            Some(i) => {
                proof {
                    lemma_first_of(s, '\n');
                }
                let line = s.take(i);
                let line = match before_last(line, '\r') {
                    Some(t) => t,
                    None => line,
                };
                seq![line] + lines_of(s.skip(i + 1))
            },
            None => seq![s],
        }
    }
}

/// Splits a text into its lines.
pub fn lines(s: &[char]) -> (r: Vec<&[char]>)
    ensures
        texts(r@) == lines_of(s@),
{
    let mut out: Vec<&[char]> = Vec::new();
    let mut rest: &[char] = s;
    while rest.len() > 0
        invariant
            texts(out@) + lines_of(rest@) == lines_of(s@),
        decreases rest.len(),
    {
        let ghost before = out@;
        match split_once(rest, '\n') {
            Some((head, tail)) => {
                proof {
                    lemma_first_of(rest@, '\n');
                }
                let line = match strip_last(head, '\r') {
                    Some(t) => t,
                    None => head,
                };
                out.push(line);
                proof {
                    assert(texts(out@) == texts(before).push(line@));
                    assert(texts(out@) + lines_of(tail@) == texts(before) + lines_of(rest@));
                }
                rest = tail;
            },
            None => {
                out.push(rest);
                proof {
                    assert(texts(out@) == texts(before).push(rest@));
                    assert(texts(out@) == texts(before) + lines_of(rest@));
                }
                rest = slice_subrange(rest, rest.len(), rest.len());
                assert(lines_of(rest@) =~= seq![]);
            },
        }
    }
    out
}

/// How many leading characters of a text are not white.
pub open spec fn word_len(s: Seq<char>) -> int
    decreases s.len(),
{
    if s.len() == 0 || is_white(s[0]) {
        0
    } else {
        1 + word_len(s.skip(1))
    }
}

/// [`word_len`] counts a leading part of the text.
pub proof fn lemma_word_len(s: Seq<char>)
    ensures
        0 <= word_len(s) <= s.len(),
        s.len() > 0 && !is_white(s[0]) ==> word_len(s) > 0,
    decreases s.len(),
{
    if s.len() > 0 && !is_white(s[0]) {
        lemma_word_len(s.skip(1));
    }
}

/// Trimming the front leaves nothing, or a text with no leading white space,
/// and nothing longer than the text.
pub proof fn lemma_trimmed_start(s: Seq<char>)
    ensures
        trimmed_start(s).len() <= s.len(),
        trimmed_start(s).len() > 0 ==> !is_white(trimmed_start(s)[0]),
    decreases s.len(),
{
    if s.len() > 0 && is_white(s[0]) {
        lemma_trimmed_start(s.skip(1));
    }
}

/// The words of a text: its maximal runs of characters that are not white.
pub open spec fn words_of(s: Seq<char>) -> Seq<Seq<char>>
    decreases s.len(),
{
    let t = trimmed_start(s);
    if t.len() == 0 {
        seq![]
    } else {
        proof {
            lemma_trimmed_start(s);
            lemma_word_len(t);
        }
        seq![t.take(word_len(t))] + words_of(t.skip(word_len(t)))
    }
}

/// Splits a text into its words.
pub fn words(s: &[char]) -> (r: Vec<&[char]>)
    ensures
        texts(r@) == words_of(s@),
{
    let mut out: Vec<&[char]> = Vec::new();
    let mut rest: &[char] = trim_start(s);
    proof {
        lemma_trimmed_start(s@);
        lemma_trimmed_start_again(s@);
    }
    while rest.len() > 0
        invariant
            texts(out@) + words_of(rest@) == words_of(s@),
            trimmed_start(rest@) == rest@,
        decreases rest.len(),
    {
        let ghost before = out@;
        let mut n: usize = 0;
        assert(rest@.skip(0) == rest@);
        while n < rest.len() && !white(rest[n])
            invariant
                0 <= n <= rest.len(),
                n + word_len(rest@.skip(n as int)) == word_len(rest@),
            decreases rest.len() - n,
        {
            assert(rest@.skip(n as int).skip(1) == rest@.skip(n + 1));
            n = n + 1;
        }
        assert(word_len(rest@) == n);
        proof {
            lemma_word_len(rest@);
            lemma_trimmed_start(rest@);
        }
        let word = slice_subrange(rest, 0, n);
        let left = slice_subrange(rest, n, rest.len());
        out.push(word);
        let tail = trim_start(left);
        proof {
            lemma_trimmed_start(left@);
            lemma_trimmed_start_again(left@);
            assert(texts(out@) == texts(before).push(word@));
            assert(left@ == rest@.skip(n as int));
            assert(words_of(rest@) == seq![word@] + words_of(left@));
            assert(words_of(tail@) == words_of(left@));
            assert(texts(out@) + words_of(tail@) == texts(before) + words_of(rest@));
        }
        rest = tail;
    }
    assert(words_of(rest@) =~= seq![]);
    out
}

/// Trimming the front twice is trimming it once.
pub proof fn lemma_trimmed_start_again(s: Seq<char>)
    ensures
        trimmed_start(trimmed_start(s)) == trimmed_start(s),
        words_of(trimmed_start(s)) == words_of(s),
{
    lemma_trimmed_start(s);
}

// --------------------------------------------------------------------- UTF-8

/// How many bytes a text takes.
pub fn byte_len(s: &str) -> (r: usize)
    ensures
        r == encode_utf8(s@).len(),
{
    s.as_bytes().len()
}

/// The encoding of two texts in a row is the two encodings in a row.
pub proof fn lemma_encode_concat(a: Seq<char>, b: Seq<char>)
    ensures
        encode_utf8(a + b) == encode_utf8(a) + encode_utf8(b),
    decreases a.len(),
{
    if a.len() == 0 {
        assert(a + b == b);
        assert(encode_utf8(a) =~= seq![]);
    } else {
        lemma_encode_concat(a.drop_first(), b);
        assert((a + b).drop_first() == a.drop_first() + b);
        assert((a + b).first() == a.first());
    }
}

/// Only the empty text encodes to nothing, and no text to less than its length.
pub proof fn lemma_encode_len(s: Seq<char>)
    ensures
        encode_utf8(s).len() >= s.len(),
    decreases s.len(),
{
    if s.len() > 0 {
        lemma_encode_len(s.drop_first());
    }
}

// -------------------------------------------------------------------- numbers

/// The decimal digit for a value below ten.
pub open spec fn digit_char(d: nat) -> char {
    (0x30 + d) as char
}

/// A number in decimal.
pub open spec fn dec_text(n: nat) -> Seq<char>
    decreases n,
{
    if n < 10 {
        seq![digit_char(n)]
    } else {
        dec_text(n / 10).push(digit_char(n % 10))
    }
}

/// The lower-case hexadecimal digit for a value below sixteen.
pub open spec fn hex_char(d: nat) -> char {
    if d < 10 {
        (0x30 + d) as char
    } else {
        (0x57 + d) as char
    }
}

/// A number in lower-case hexadecimal, with no leading zeros.
pub open spec fn hex_text(n: nat) -> Seq<char>
    decreases n,
{
    if n < 16 {
        seq![hex_char(n)]
    } else {
        hex_text(n / 16).push(hex_char(n % 16))
    }
}

/// Appends a number in decimal.
pub fn push_dec(out: &mut String, n: u64)
    ensures
        final(out)@ == old(out)@ + dec_text(n as nat),
{
    push_wide_dec(out, n as u128);
}

/// Appends a wide number in decimal.
pub fn push_wide_dec(out: &mut String, n: u128)
    ensures
        final(out)@ == old(out)@ + dec_text(n as nat),
    decreases n,
{
    if n >= 10 {
        push_wide_dec(out, n / 10);
    }
    out.push((0x30u8 + (n % 10) as u8) as char);
}

/// Appends a number in lower-case hexadecimal.
pub fn push_hex(out: &mut String, n: u64)
    ensures
        final(out)@ == old(out)@ + hex_text(n as nat),
    decreases n,
{
    if n >= 16 {
        push_hex(out, n / 16);
    }
    let d: u8 = (n % 16) as u8;
    if d < 10 {
        out.push((0x30u8 + d) as char);
    } else {
        out.push((0x57u8 + d) as char);
    }
}

/// Whether a character is a decimal digit.
pub open spec fn is_digit(c: char) -> bool {
    0x30 <= c as u32 <= 0x39
}

/// The value of a run of decimal digits.
pub open spec fn digits_value(s: Seq<char>) -> nat
    decreases s.len(),
{
    if s.len() == 0 {
        0
    } else {
        digits_value(s.drop_last()) * 10 + (s.last() as u32 - 0x30) as nat
    }
}

/// The digits that a number is written with: a leading `+` is allowed.
pub open spec fn unsigned(s: Seq<char>) -> Seq<char> {
    if s.len() > 0 && s[0] == '+' {
        s.skip(1)
    } else {
        s
    }
}

/// The number that a text spells in decimal, where it spells one that is at
/// most `max`.
pub open spec fn number(s: Seq<char>, max: nat) -> Option<nat> {
    let d = unsigned(s);
    if d.len() > 0 && (forall|i: int| 0 <= i < d.len() ==> is_digit(#[trigger] d[i]))
        && digits_value(d) <= max {
        Some(digits_value(d))
    } else {
        None
    }
}

/// A longer run of digits has no smaller value.
proof fn lemma_digits_grow(s: Seq<char>, i: int)
    requires
        0 <= i <= s.len(),
        forall|j: int| 0 <= j < s.len() ==> is_digit(#[trigger] s[j]),
    ensures
        digits_value(s.take(i)) <= digits_value(s),
    decreases s.len() - i,
{
    if i == s.len() {
        assert(s.take(i) == s);
    } else {
        assert(s.take(i + 1).drop_last() == s.take(i));
        assert(is_digit(s[i]));
        lemma_digits_grow(s, i + 1);
    }
}

/// Reads a decimal number that is at most `max`.
pub fn parse_number(s: &[char], max: u64) -> (r: Option<u64>)
    ensures
        match r {
            Some(v) => number(s@, max as nat) == Some(v as nat) && v <= max,
            None => number(s@, max as nat) is None,
        },
{
    let d = if s.len() > 0 && s[0] == '+' {
        slice_subrange(s, 1, s.len())
    } else {
        s
    };
    assert(d@ == unsigned(s@));
    if d.len() == 0 {
        return None;
    }
    let mut i: usize = 0;
    while i < d.len()
        invariant
            0 <= i <= d.len(),
            d@ == unsigned(s@),
            forall|j: int| 0 <= j < i ==> is_digit(#[trigger] d@[j]),
        decreases d.len() - i,
    {
        let u: u32 = d[i] as u32;
        if u < 0x30 || u > 0x39 {
            assert(!is_digit(d@[i as int]));
            return None;
        }
        i = i + 1;
    }
    let mut acc: u64 = 0;
    let mut k: usize = 0;
    while k < d.len()
        invariant
            0 <= k <= d.len(),
            d@ == unsigned(s@),
            forall|j: int| 0 <= j < d.len() ==> is_digit(#[trigger] d@[j]),
            acc as nat == digits_value(d@.take(k as int)),
            acc <= max,
        decreases d.len() - k,
    {
        assert(is_digit(d@[k as int]));
        let v: u64 = (d[k] as u32 - 0x30) as u64;
        proof {
            assert(d@.take(k + 1).drop_last() == d@.take(k as int));
            lemma_digits_grow(d@, k + 1);
        }
        if acc > max / 10 || v > max - acc * 10 {
            return None;
        }
        acc = acc * 10 + v;
        k = k + 1;
    }
    assert(d@.take(d.len() as int) == d@);
    Some(acc)
}

// ----------------------------------------------------------------------- laws

/// Lowering a text moves exactly its ASCII capitals, each to its small letter;
/// nothing else changes, and no capital is left. Raising is the mirror image, so
/// that two texts that differ in case alone are one text once lowered.
pub proof fn law_case_is_folded(s: Seq<char>, i: int)
    requires
        0 <= i < s.len(),
    ensures
        lowered(s).len() == s.len(),
        'A' <= s[i] <= 'Z' ==> lowered(s)[i] as int - s[i] as int == 'a' as int - 'A' as int,
        !('A' <= s[i] <= 'Z') ==> lowered(s)[i] == s[i],
        'a' <= s[i] <= 'z' ==> s[i] as int - uppered(s)[i] as int == 'a' as int - 'A' as int,
        !('a' <= s[i] <= 'z') ==> uppered(s)[i] == s[i],
        lowered(lowered(s)) == lowered(s),
        lowered(uppered(s)) == lowered(s),
        uppered(lowered(s)) == uppered(s),
{
    assert forall|j: int| 0 <= j < s.len() implies lowered(lowered(s))[j] == lowered(s)[j]
        && lowered(uppered(s))[j] == lowered(s)[j] && uppered(lowered(s))[j] == uppered(s)[j] by {
        lemma_case_of(s[j]);
    }
    lemma_case_of(s[i]);
    assert(lowered(lowered(s)) =~= lowered(s));
    assert(lowered(uppered(s)) =~= lowered(s));
    assert(uppered(lowered(s)) =~= uppered(s));
}

proof fn lemma_case_of(c: char)
    ensures
        lower(lower(c)) == lower(c),
        lower(upper(c)) == lower(c),
        upper(lower(c)) == upper(c),
        'A' <= c <= 'Z' ==> lower(c) as int == c as int + 32,
        'a' <= c <= 'z' ==> upper(c) as int == c as int - 32,
{
}

/// White space is what it is in ASCII: the blank and the five characters from tab
/// to carriage return, and none of the printable ones.
pub proof fn law_ascii_white_space(c: char)
    requires
        (c as u32) < 0x80,
    ensures
        is_white(c) <==> c == ' ' || c == '\t' || c == '\n' || c == '\x0B' || c == '\x0C' || c
            == '\r',
{
}

/// Beyond ASCII, white space is the next line, the no-break space, the ogham mark, the
/// quads and spaces from en to hair, the two separators, the narrow, the mathematical
/// and the ideographic space.
pub proof fn law_white_space_beyond_ascii(c: char)
    requires
        c as u32 >= 0x80,
    ensures
        is_white(c) <==> c == '\u{85}' || c == '\u{a0}' || c == '\u{1680}' || ('\u{2000}' <= c
            && c <= '\u{200a}') || c == '\u{2028}' || c == '\u{2029}' || c == '\u{202f}' || c
            == '\u{205f}' || c == '\u{3000}',
{
}

/// All of a text is white space.
pub open spec fn all_white(s: Seq<char>) -> bool {
    forall|i: int| 0 <= i < s.len() ==> is_white(#[trigger] s[i])
}

/// Trimming takes white space off both ends and nothing else: what is left is the
/// text between two runs of white space, and neither starts nor ends with any.
pub proof fn law_trimming_takes_the_white_space_off(s: Seq<char>) -> (r: (Seq<char>, Seq<char>))
    ensures
        s == r.0 + trimmed(s) + r.1,
        all_white(r.0),
        all_white(r.1),
        trimmed(s).len() > 0 ==> !is_white(trimmed(s)[0]) && !is_white(trimmed(s).last()),
{
    let front = lemma_trimmed_front(s);
    let t = trimmed_start(s);
    let back = lemma_trimmed_back(t);
    assert(s =~= front + trimmed(s) + back);
    if trimmed(s).len() > 0 {
        assert(trimmed(s)[0] == t[0]);
    }
    (front, back)
}

proof fn lemma_trimmed_front(s: Seq<char>) -> (r: Seq<char>)
    ensures
        s == r + trimmed_start(s),
        all_white(r),
        trimmed_start(s).len() > 0 ==> !is_white(trimmed_start(s)[0]),
    decreases s.len(),
{
    if s.len() > 0 && is_white(s[0]) {
        let rest = lemma_trimmed_front(s.skip(1));
        let r = seq![s[0]] + rest;
        assert(s =~= seq![s[0]] + s.skip(1));
        assert(s =~= r + trimmed_start(s));
        r
    } else {
        assert(s =~= seq![] + s);
        seq![]
    }
}

proof fn lemma_trimmed_back(s: Seq<char>) -> (r: Seq<char>)
    ensures
        s == trimmed_end(s) + r,
        all_white(r),
        trimmed_end(s).len() > 0 ==> !is_white(trimmed_end(s).last()),
        trimmed_end(s).len() > 0 ==> trimmed_end(s)[0] == s[0],
    decreases s.len(),
{
    if s.len() > 0 && is_white(s.last()) {
        let rest = lemma_trimmed_back(s.drop_last());
        let r = rest.push(s.last());
        assert(s =~= s.drop_last().push(s.last()));
        assert(s =~= trimmed_end(s) + r);
        r
    } else {
        assert(s =~= s + seq![]);
        seq![]
    }
}

/// White space around a text does not count: it is gone once the text is trimmed.
pub proof fn law_white_space_around_a_text_does_not_count(
    before: Seq<char>,
    s: Seq<char>,
    behind: Seq<char>,
)
    requires
        all_white(before),
        all_white(behind),
        s.len() > 0 ==> !is_white(s[0]) && !is_white(s.last()),
    ensures
        trimmed(before + s + behind) == s,
    decreases before.len() + behind.len(),
{
    let t = before + s + behind;
    if before.len() > 0 {
        assert(t[0] == before[0]);
        assert(t.skip(1) =~= before.skip(1) + s + behind);
        assert forall|i: int| 0 <= i < before.skip(1).len() implies is_white(
            #[trigger] before.skip(1)[i],
        ) by {
            assert(before.skip(1)[i] == before[i + 1]);
        }
        law_white_space_around_a_text_does_not_count(before.skip(1), s, behind);
    } else if s.len() == 0 {
        assert(t =~= behind);
        lemma_all_white_is_nothing(behind);
        assert(s =~= seq![]);
    } else {
        assert(t =~= s + behind);
        assert(trimmed_start(t) == t);
        lemma_trimmed_behind(s, behind);
    }
}

proof fn lemma_all_white_is_nothing(s: Seq<char>)
    requires
        all_white(s),
    ensures
        trimmed(s) == Seq::<char>::empty(),
    decreases s.len(),
{
    if s.len() > 0 {
        assert forall|i: int| 0 <= i < s.skip(1).len() implies is_white(#[trigger] s.skip(1)[i]) by {
            assert(s.skip(1)[i] == s[i + 1]);
        }
        lemma_all_white_is_nothing(s.skip(1));
    } else {
        assert(s =~= seq![]);
    }
}

proof fn lemma_trimmed_behind(s: Seq<char>, behind: Seq<char>)
    requires
        all_white(behind),
        s.len() > 0,
        !is_white(s.last()),
    ensures
        trimmed_end(s + behind) == s,
    decreases behind.len(),
{
    let t = s + behind;
    if behind.len() > 0 {
        assert(t.last() == behind.last());
        assert(is_white(behind[behind.len() - 1]));
        assert(t.drop_last() =~= s + behind.drop_last());
        lemma_trimmed_behind(s, behind.drop_last());
    } else {
        assert(t =~= s);
    }
}

/// A text is cut at the first occurrence of a character: the front does not hold
/// it, and the two parts with the character between them are the text.
pub proof fn law_a_cut_is_at_the_first(a: Seq<char>, c: char, b: Seq<char>)
    requires
        !a.contains(c),
    ensures
        cut(a + seq![c] + b, c) == Some((a, b)),
        cut(a, c) is None,
{
    let s = a + seq![c] + b;
    assert(s[a.len() as int] == c);
    assert forall|j: int| 0 <= j < a.len() implies s[j] != c by {
        assert(a.contains(a[j]));
    }
    lemma_first_of_is(s, c, a.len() as int);
    assert(s.take(a.len() as int) =~= a);
    assert(s.skip(a.len() as int + 1) =~= b);
    lemma_first_of(a, c);
}

/// Or at the last, where that is meant: then the back does not hold it.
pub proof fn law_a_back_cut_is_at_the_last(a: Seq<char>, c: char, b: Seq<char>)
    requires
        !b.contains(c),
    ensures
        rcut(a + seq![c] + b, c) == Some((a, b)),
        rcut(b, c) is None,
{
    let s = a + seq![c] + b;
    lemma_last_of(s, c);
    lemma_last_of(b, c);
    assert(s[a.len() as int] == c);
    assert forall|j: int| a.len() < j < s.len() implies s[j] != c by {
        assert(b.contains(b[j - a.len() - 1]));
    }
    assert(last_of(s, c) == Some(a.len() as int));
    assert(s.take(a.len() as int) =~= a);
    assert(s.skip(a.len() as int + 1) =~= b);
}

/// Some texts in a row, with a separator between each two.
pub open spec fn with_between(list: Seq<Seq<char>>, sep: char) -> Seq<char>
    decreases list.len(),
{
    if list.len() == 0 {
        seq![]
    } else if list.len() == 1 {
        list[0]
    } else {
        list[0] + seq![sep] + with_between(list.skip(1), sep)
    }
}

/// None of some texts holds a character.
pub open spec fn none_holds(list: Seq<Seq<char>>, c: char) -> bool {
    forall|i: int| 0 <= i < list.len() ==> !(#[trigger] list[i]).contains(c)
}

/// Splitting undoes joining: of texts that do not hold the separator, written with
/// one between each two, the parts are these texts, all of them and in order.
pub proof fn law_splitting_undoes_joining(list: Seq<Seq<char>>, sep: char)
    requires
        list.len() > 0,
        none_holds(list, sep),
    ensures
        parts(with_between(list, sep), sep) == list,
    decreases list.len(),
{
    let s = with_between(list, sep);
    assert(!list[0].contains(sep));
    if list.len() == 1 {
        lemma_first_of(s, sep);
        assert(parts(s, sep) =~= list);
    } else {
        let rest = list.skip(1);
        assert forall|i: int| 0 <= i < rest.len() implies !(#[trigger] rest[i]).contains(sep) by {
            assert(rest[i] == list[i + 1]);
        }
        law_splitting_undoes_joining(rest, sep);
        law_a_cut_is_at_the_first(list[0], sep, with_between(rest, sep));
        lemma_first_of(s, sep);
        assert(parts(s, sep) =~= list);
    }
}

/// And joining undoes splitting: the parts of a text, with the separator between
/// each two, are the text, and none of them holds the separator.
pub proof fn law_joining_undoes_splitting(s: Seq<char>, sep: char)
    ensures
        parts(s, sep).len() > 0,
        none_holds(parts(s, sep), sep),
        with_between(parts(s, sep), sep) == s,
    decreases s.len(),
{
    lemma_first_of(s, sep);
    match first_of(s, sep) {
        None => {},
        Some(i) => {
            law_joining_undoes_splitting(s.skip(i + 1), sep);
            let rest = parts(s.skip(i + 1), sep);
            let all = parts(s, sep);
            assert(all[0] == s.take(i));
            assert(all.skip(1) =~= rest);
            assert forall|j: int| 0 <= j < all.len() implies !(#[trigger] all[j]).contains(sep) by {
                if j > 0 {
                    assert(all[j] == rest[j - 1]);
                }
            }
            assert(s =~= s.take(i) + seq![sep] + s.skip(i + 1));
        },
    }
}

/// A text is read line by line: what stands before the first line feed is the
/// first line, whether a carriage return stands before it or not, and the lines
/// behind it are those of the rest. A last line needs no line feed.
pub proof fn law_lines_end_at_line_feeds(line: Seq<char>, rest: Seq<char>)
    requires
        !line.contains('\n'),
        line.len() > 0 ==> line.last() != '\r',
    ensures
        lines_of(line + seq!['\n'] + rest) == seq![line] + lines_of(rest),
        lines_of(line + seq!['\r', '\n'] + rest) == seq![line] + lines_of(rest),
        line.len() > 0 ==> lines_of(line) == seq![line],
        lines_of(seq![]) == Seq::<Seq<char>>::empty(),
{
    let plain = line + seq!['\n'] + rest;
    law_a_cut_is_at_the_first(line, '\n', rest);
    lemma_first_of(plain, '\n');
    assert(lines_of(plain) == seq![line] + lines_of(rest));
    let returned = line.push('\r');
    assert(!returned.contains('\n')) by {
        assert forall|i: int| 0 <= i < returned.len() implies returned[i] != '\n' by {
            if i < line.len() {
                assert(line.contains(line[i]));
            }
        }
    }
    let both = line + seq!['\r', '\n'] + rest;
    assert(both =~= returned + seq!['\n'] + rest);
    law_a_cut_is_at_the_first(returned, '\n', rest);
    lemma_first_of(both, '\n');
    assert(returned.drop_last() =~= line);
    assert(lines_of(both) == seq![line] + lines_of(rest));
    lemma_first_of(line, '\n');
}

/// Words are what stands between white space: a word, some white space and a rest
/// are the word and the words of the rest, and white space in front is no word.
pub proof fn law_words_stand_between_white_space(
    before: Seq<char>,
    word: Seq<char>,
    gap: char,
    rest: Seq<char>,
)
    requires
        all_white(before),
        word.len() > 0,
        forall|i: int| 0 <= i < word.len() ==> !is_white(#[trigger] word[i]),
        is_white(gap),
    ensures
        words_of(before + word + seq![gap] + rest) == seq![word] + words_of(rest),
        words_of(before + word) == seq![word],
        words_of(before) == Seq::<Seq<char>>::empty(),
{
    let t = word + seq![gap] + rest;
    lemma_words_start(before, t);
    lemma_word_run(word, seq![gap] + rest);
    assert(before + word + seq![gap] + rest =~= before + t);
    assert(t =~= word + (seq![gap] + rest));
    assert(trimmed_start(t) == t);
    assert(t.take(word.len() as int) =~= word);
    assert(t.skip(word.len() as int) =~= seq![gap] + rest);
    lemma_words_start(seq![gap], rest);
    assert(words_of(t) == seq![word] + words_of(rest));
    lemma_words_start(before, word);
    lemma_word_run(word, seq![]);
    assert(word + seq![] =~= word);
    assert(trimmed_start(word) == word);
    assert(word.take(word.len() as int) =~= word);
    assert(word.skip(word.len() as int) =~= seq![]);
    assert(words_of(seq![]) =~= Seq::<Seq<char>>::empty());
    assert(words_of(word) =~= seq![word]);
    lemma_words_start(before, seq![]);
    assert(before + seq![] =~= before);
}

proof fn lemma_words_start(before: Seq<char>, s: Seq<char>)
    requires
        all_white(before),
    ensures
        words_of(before + s) == words_of(s),
        trimmed_start(before + s) == trimmed_start(s),
    decreases before.len(),
{
    let t = before + s;
    if before.len() > 0 {
        assert(t[0] == before[0]);
        assert(t.skip(1) =~= before.skip(1) + s);
        assert forall|i: int| 0 <= i < before.skip(1).len() implies is_white(
            #[trigger] before.skip(1)[i],
        ) by {
            assert(before.skip(1)[i] == before[i + 1]);
        }
        lemma_words_start(before.skip(1), s);
        lemma_trimmed_start_again(t);
        lemma_trimmed_start_again(s);
    } else {
        assert(t =~= s);
    }
}

proof fn lemma_word_run(word: Seq<char>, rest: Seq<char>)
    requires
        forall|i: int| 0 <= i < word.len() ==> !is_white(#[trigger] word[i]),
        rest.len() > 0 ==> is_white(rest[0]),
    ensures
        word_len(word + rest) == word.len(),
    decreases word.len(),
{
    let t = word + rest;
    if word.len() > 0 {
        assert(t[0] == word[0]);
        assert(t.skip(1) =~= word.skip(1) + rest);
        assert forall|i: int| 0 <= i < word.skip(1).len() implies !is_white(
            #[trigger] word.skip(1)[i],
        ) by {
            assert(word.skip(1)[i] == word[i + 1]);
        }
        lemma_word_run(word.skip(1), rest);
    } else {
        assert(t =~= rest);
    }
}

/// Numbers are written in decimal: one more digit behind a number is ten times the
/// number and the digit, a single digit is itself, and what is written reads back
/// as the number.
pub proof fn law_numbers_are_decimal(n: nat, d: nat, max: nat)
    requires
        d < 10,
    ensures
        dec_text(d) == seq![('0' as nat + d) as char],
        n > 0 ==> dec_text(10 * n + d) == dec_text(n) + dec_text(d),
        number(dec_text(n), max) == (if n <= max {
            Some(n)
        } else {
            None
        }),
        number("+"@ + dec_text(n), max) == number(dec_text(n), max),
{
    reveal_strlit("+");
    if n > 0 {
        assert(dec_text(10 * n + d) =~= dec_text(n) + dec_text(d));
    }
    lemma_dec_text(n);
    assert(("+"@ + dec_text(n)).skip(1) =~= dec_text(n));
    assert(dec_text(n)[0] != '+');
}

proof fn lemma_dec_text(n: nat)
    ensures
        dec_text(n).len() > 0,
        forall|i: int| 0 <= i < dec_text(n).len() ==> is_digit(#[trigger] dec_text(n)[i]),
        digits_value(dec_text(n)) == n,
    decreases n,
{
    if n < 10 {
        let t = dec_text(n);
        reveal_with_fuel(digits_value, 2);
        assert(t.drop_last() =~= seq![]);
    } else {
        lemma_dec_text(n / 10);
        let t = dec_text(n);
        assert(t.drop_last() =~= dec_text(n / 10));
        assert forall|i: int| 0 <= i < t.len() implies is_digit(#[trigger] t[i]) by {
            if i < t.len() - 1 {
                assert(t[i] == dec_text(n / 10)[i]);
            }
        }
    }
}

proof fn lemma_digit(c: char)
    ensures
        is_digit(c) <==> '0' <= c <= '9',
{
}

/// Nothing but digits is a number: a text with any other character, a leading `+`
/// aside, is none, and neither is an empty one.
pub proof fn law_only_digits_are_numbers(s: Seq<char>, max: nat, i: int)
    ensures
        s.len() == 0 ==> number(s, max) is None,
        0 < i < s.len() && !('0' <= s[i] <= '9') ==> number(s, max) is None,
        s.len() > 0 && s[0] != '+' && !('0' <= s[0] <= '9') ==> number(s, max) is None,
        number(s, max) matches Some(n) ==> n <= max,
{
    let d = unsigned(s);
    if 0 < i < s.len() && !('0' <= s[i] <= '9') {
        lemma_digit(s[i]);
        if s[0] == '+' {
            assert(d[i - 1] == s[i]);
            assert(!is_digit(d[i - 1]));
        } else {
            assert(!is_digit(d[i]));
        }
    }
    if s.len() > 0 && s[0] != '+' && !('0' <= s[0] <= '9') {
        lemma_digit(s[0]);
        assert(!is_digit(d[0]));
    }
}

/// The value of one hexadecimal digit.
pub open spec fn hex_value(c: char) -> int {
    if '0' <= c <= '9' {
        c as int - '0' as int
    } else {
        c as int - 'a' as int + 10
    }
}

/// The value of a run of hexadecimal digits.
pub open spec fn hex_number(s: Seq<char>) -> int
    decreases s.len(),
{
    if s.len() == 0 {
        0
    } else {
        hex_number(s.drop_last()) * 16 + hex_value(s.last())
    }
}

/// A number in hexadecimal reads back as the number, in small letters, so that two
/// numbers are never written alike.
pub proof fn law_hexadecimal_reads_back(n: nat)
    ensures
        hex_number(hex_text(n)) == n,
        hex_text(n).len() > 0,
        forall|i: int|
            0 <= i < hex_text(n).len() ==> '0' <= (#[trigger] hex_text(n)[i]) <= '9' || 'a'
                <= hex_text(n)[i] <= 'f',
    decreases n,
{
    if n < 16 {
        let t = hex_text(n);
        reveal_with_fuel(hex_number, 2);
        assert(t.drop_last() =~= seq![]);
    } else {
        law_hexadecimal_reads_back(n / 16);
        let t = hex_text(n);
        assert(t.drop_last() =~= hex_text(n / 16));
        assert forall|i: int| 0 <= i < t.len() implies '0' <= (#[trigger] t[i]) <= '9' || 'a'
            <= t[i] <= 'f' by {
            if i < t.len() - 1 {
                assert(t[i] == hex_text(n / 16)[i]);
            }
        }
    }
}

} // verus!
