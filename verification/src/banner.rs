//! The boot banner: a courtesy for a human at a terminal, and the one-line form
//! for everyone else.
use vstd::prelude::*;
use vstd::string::StringExecFns;
use vstd::utf8::is_ascii_chars;

use crate::config::Storage;
use crate::text::{
    chars_of, dec_text, first_of, first_run, has_text, is_white, lemma_first_of_is, lines_of,
    push_chars, push_dec, to_upper, trim_end, trimmed_end, uppered,
};

verus! {

/// The version that is announced.
pub const VERSION: &'static str = "0.2.1";

/// What the mark's two blocks are made of.
pub const BLOCK: char = '\u{2588}';

/// The accent, an ANSI 256-colour code. One accent, on one element.
pub const EMBER: &'static str = "\x1b[38;5;166m";

/// The tone of the brackets, which are structure and not content.
pub const MUTED: &'static str = "\x1b[38;5;245m";

/// The end of a tinted run.
pub const RESET: &'static str = "\x1b[0m";

/// The rows of the mark: brackets closed around a block split once into header
/// and body. Every row is eleven columns wide, so that the side text lines up.
pub open spec fn mark_text(row: int) -> Seq<char> {
    if row == 0 {
        "\u{250c}\u{2500}\u{2500}     \u{2500}\u{2500}\u{2510}"@
    } else if row == 2 {
        "\u{2502}  \u{2588}\u{2588} \u{2588}\u{2588}\u{2588} \u{2502}"@
    } else if row == 4 {
        "\u{2514}\u{2500}\u{2500}     \u{2500}\u{2500}\u{2518}"@
    } else {
        "\u{2502}         \u{2502}"@
    }
}

/// A row of the mark.
pub fn mark(row: usize) -> (r: &'static str)
    requires
        row < 5,
    ensures
        r@ == mark_text(row as int),
{
    if row == 0 {
        "\u{250c}\u{2500}\u{2500}     \u{2500}\u{2500}\u{2510}"
    } else if row == 2 {
        "\u{2502}  \u{2588}\u{2588} \u{2588}\u{2588}\u{2588} \u{2502}"
    } else if row == 4 {
        "\u{2514}\u{2500}\u{2500}     \u{2500}\u{2500}\u{2518}"
    } else {
        "\u{2502}         \u{2502}"
    }
}

// ---------------------------------------------------------------------- tints

/// Whether two glyphs belong to one run: both blocks, both spaces, or both
/// something else.
pub open spec fn alike(a: char, b: char) -> bool {
    (a == BLOCK) == (b == BLOCK) && (a == ' ') == (b == ' ')
}

/// The length of the run that starts a row, if `i` glyphs of it are known.
pub open spec fn run_end(row: Seq<char>, i: int) -> int
    decreases row.len() - i,
{
    if 0 <= i < row.len() && alike(row[i], row[0]) {
        run_end(row, i + 1)
    } else {
        i
    }
}

/// One run, tinted: box drawing muted, the first run of blocks in the accent, and
/// the rest at the terminal's own foreground.
pub open spec fn tinted_run(run: Seq<char>, blocks_seen: nat) -> Seq<char> {
    if run[0] == BLOCK {
        if blocks_seen == 0 {
            EMBER@ + run + RESET@
        } else {
            run
        }
    } else if run[0] == ' ' {
        run
    } else {
        MUTED@ + run + RESET@
    }
}

/// A row, tinted run by run.
pub open spec fn tinted(row: Seq<char>, blocks_seen: nat) -> Seq<char>
    decreases row.len(),
{
    if row.len() == 0 {
        Seq::empty()
    } else {
        proof {
            lemma_run_end(row, 1);
        }
        let n = run_end(row, 1);
        let seen = if row[0] == BLOCK {
            blocks_seen + 1
        } else {
            blocks_seen
        };
        tinted_run(row.take(n), blocks_seen) + tinted(row.skip(n), seen)
    }
}

/// A run goes no further than its row.
pub proof fn lemma_run_end(row: Seq<char>, i: int)
    requires
        0 <= i <= row.len(),
    ensures
        i <= run_end(row, i) <= row.len(),
    decreases row.len() - i,
{
    if i < row.len() && alike(row[i], row[0]) {
        lemma_run_end(row, i + 1);
    }
}

/// Tints one row of the mark.
pub fn tint(row: &str) -> (r: String)
    ensures
        r@ == tinted(row@, 0),
{
    let all = chars_of(row);
    let mut out = String::new();
    let mut blocks_seen: usize = 0;
    let mut at: usize = 0;
    proof {
        assert(all@.skip(0) == all@);
    }
    while at < all.len()
        invariant
            at <= all@.len(),
            blocks_seen <= at,
            out@ + tinted(all@.skip(at as int), blocks_seen as nat) == tinted(all@, 0),
        decreases all@.len() - at,
    {
        let ghost row = all@.skip(at as int);
        let ghost before = out@;
        let head = all[at];
        let mut end: usize = at + 1;
        while end < all.len() && (all[end] == BLOCK) == (head == BLOCK) && (all[end] == ' ') == (
        head == ' ')
            invariant
                at < end <= all@.len(),
                row == all@.skip(at as int),
                head == row[0],
                run_end(row, 1) == run_end(row, end - at),
            decreases all@.len() - end,
        {
            assert(row[end - at] == all@[end as int]);
            end = end + 1;
        }
        proof {
            if end < all@.len() {
                assert(row[end - at] == all@[end as int]);
            }
            assert(run_end(row, 1) == end - at);
            assert(row.take(end - at) == all@.subrange(at as int, end as int));
            assert(row.skip(end - at) == all@.skip(end as int));
        }
        let run = vstd::slice::slice_subrange(all.as_slice(), at, end);
        let ghost seen = blocks_seen as nat;
        if head == BLOCK {
            if blocks_seen == 0 {
                out.append(EMBER);
                push_chars(&mut out, run);
                out.append(RESET);
            } else {
                push_chars(&mut out, run);
            }
            blocks_seen = blocks_seen + 1;
        } else if head == ' ' {
            push_chars(&mut out, run);
        } else {
            out.append(MUTED);
            push_chars(&mut out, run);
            out.append(RESET);
        }
        proof {
            assert(out@ == before + tinted_run(row.take(end - at), seen));
            assert(before + tinted(row, seen) == out@ + tinted(
                all@.skip(end as int),
                blocks_seen as nat,
            ));
        }
        at = end;
    }
    proof {
        assert(all@.skip(at as int).len() == 0);
    }
    out
}

/// What a terminal shows of a text: the escapes gone, everything else in place.
pub open spec fn shown(s: Seq<char>) -> Seq<char>
    decreases s.len(),
{
    if s.len() == 0 {
        Seq::empty()
    } else if s[0] == '\x1b' {
        match first_of(s, 'm') {
            Some(i) => if 0 <= i < s.len() {
                shown(s.skip(i + 1))
            } else {
                Seq::empty()
            },
            None => Seq::empty(),
        }
    } else {
        seq![s[0]] + shown(s.skip(1))
    }
}

/// Text without escapes shows as it is.
proof fn lemma_shown_text(a: Seq<char>, b: Seq<char>)
    requires
        !a.contains('\x1b'),
    ensures
        shown(a + b) == a + shown(b),
    decreases a.len(),
{
    if a.len() == 0 {
        assert(a + b == b);
    } else {
        let rest = a.skip(1);
        assert(!rest.contains('\x1b')) by {
            if rest.contains('\x1b') {
                let i = choose|i: int| 0 <= i < rest.len() && rest[i] == '\x1b';
                assert(a[i + 1] == '\x1b');
            }
        }
        assert(a[0] != '\x1b');
        assert((a + b).skip(1) == rest + b);
        lemma_shown_text(rest, b);
    }
}

/// An escape does not show.
proof fn lemma_shown_escape(e: Seq<char>, b: Seq<char>)
    requires
        e.len() > 0,
        e[0] == '\x1b',
        e.last() == 'm',
        forall|i: int| 0 <= i < e.len() - 1 ==> e[i] != 'm',
    ensures
        shown(e + b) == shown(b),
{
    let s = e + b;
    lemma_first_of_is(s, 'm', e.len() - 1);
    assert(s.skip(e.len() as int) == b);
}

/// The escapes of the palette.
proof fn lemma_palette(b: Seq<char>)
    ensures
        shown(EMBER@ + b) == shown(b),
        shown(MUTED@ + b) == shown(b),
        shown(RESET@ + b) == shown(b),
{
    reveal_strlit("\x1b[38;5;166m");
    reveal_strlit("\x1b[38;5;245m");
    reveal_strlit("\x1b[0m");
    lemma_shown_escape(EMBER@, b);
    lemma_shown_escape(MUTED@, b);
    lemma_shown_escape(RESET@, b);
}

/// A tinted row before a text shows as the row before what the text shows as.
proof fn lemma_shown_tinted(row: Seq<char>, blocks_seen: nat, b: Seq<char>)
    requires
        !row.contains('\x1b'),
    ensures
        shown(tinted(row, blocks_seen) + b) == row + shown(b),
    decreases row.len(),
{
    if row.len() == 0 {
        assert(tinted(row, blocks_seen) + b =~= b);
        assert(row + shown(b) =~= shown(b));
    } else {
        lemma_run_end(row, 1);
        let n = run_end(row, 1);
        let run = row.take(n);
        let rest = row.skip(n);
        let seen = if row[0] == BLOCK {
            blocks_seen + 1
        } else {
            blocks_seen
        };
        assert(!run.contains('\x1b')) by {
            if run.contains('\x1b') {
                let i = choose|i: int| 0 <= i < run.len() && run[i] == '\x1b';
                assert(row[i] == '\x1b');
            }
        }
        assert(!rest.contains('\x1b')) by {
            if rest.contains('\x1b') {
                let i = choose|i: int| 0 <= i < rest.len() && rest[i] == '\x1b';
                assert(row[i + n] == '\x1b');
            }
        }
        lemma_shown_tinted(rest, seen, b);
        let tail = tinted(rest, seen) + b;
        assert(run + (rest + shown(b)) =~= row + shown(b));
        lemma_shown_text(run, tail);
        lemma_shown_text(run, RESET@ + tail);
        lemma_palette(tail);
        lemma_palette(run + (RESET@ + tail));
        let whole = tinted(row, blocks_seen) + b;
        if row[0] == BLOCK && blocks_seen == 0 {
            assert(whole =~= EMBER@ + (run + (RESET@ + tail)));
        } else if row[0] == BLOCK || row[0] == ' ' {
            assert(whole =~= run + tail);
        } else {
            assert(whole =~= MUTED@ + (run + (RESET@ + tail)));
        }
    }
}

/// Tinting adds, drops and reorders nothing that is seen.
pub proof fn law_tint_leaves_the_glyphs(row: Seq<char>, blocks_seen: nat)
    requires
        !row.contains('\x1b'),
    ensures
        shown(tinted(row, blocks_seen)) == row,
{
    let none: Seq<char> = seq![];
    lemma_shown_tinted(row, blocks_seen, none);
    assert(tinted(row, blocks_seen) + none =~= tinted(row, blocks_seen));
    assert(row + shown(none) =~= row);
}

/// The rows of the mark are all equally wide.
pub proof fn law_rows_are_equally_wide(row: int)
    ensures
        mark_text(row).len() == 11,
{
    reveal_strlit("\u{250c}\u{2500}\u{2500}     \u{2500}\u{2500}\u{2510}");
    reveal_strlit("\u{2502}  \u{2588}\u{2588} \u{2588}\u{2588}\u{2588} \u{2502}");
    reveal_strlit("\u{2514}\u{2500}\u{2500}     \u{2500}\u{2500}\u{2518}");
    reveal_strlit("\u{2502}         \u{2502}");
}

// --------------------------------------------------------------------- banner

/// Whether a locale claims UTF-8. The box drawing is unreadable where none does.
pub open spec fn claims_utf8(v: Option<Seq<char>>) -> bool {
    v is Some && first_run(uppered(v->0), "UTF-8"@) is Some
}

/// Whether this locale claims UTF-8.
pub fn locale_is_utf8(v: Option<String>) -> (r: bool)
    ensures
        r == claims_utf8(crate::text::opt_text(v)),
{
    match v {
        Some(v) => {
            let chars = chars_of(v.as_str());
            let up = to_upper(chars.as_slice());
            has_text(up.as_slice(), "UTF-8")
        },
        None => false,
    }
}

/// The side text of a row: the name and version, then the two settings that
/// change what the process does at boot.
pub open spec fn side_text(row: int, storage: Storage, brotli_quality: nat, compression: bool) -> Seq<
    char,
> {
    if row == 1 {
        "bare server "@ + VERSION@
    } else if row == 2 {
        let codec = if compression {
            "brotli q"@ + dec_text(brotli_quality)
        } else {
            "no compression"@
        };
        let store = match storage {
            Storage::Memory => "memory"@,
            Storage::Disk => "disk"@,
        };
        "rustls \u{b7} "@ + codec + " \u{b7} storage="@ + store
    } else if row == 3 {
        "MIT \u{b7} github.com/nsinenko/bare-server"@
    } else {
        ""@
    }
}

/// The side text, row by row.
pub fn sides(storage: Storage, brotli_quality: u32, compression: bool) -> (r: [String; 5])
    ensures
        forall|i: int|
            0 <= i < 5 ==> (#[trigger] r@[i])@ == side_text(
                i,
                storage,
                brotli_quality as nat,
                compression,
            ),
{
    let mut name = "bare server ".to_string();
    name.append(VERSION);
    let mut codec = "no compression".to_string();
    if compression {
        codec = "brotli q".to_string();
        push_dec(&mut codec, brotli_quality as u64);
    }
    let store = match storage {
        Storage::Memory => "memory",
        Storage::Disk => "disk",
    };
    let mut settings = "rustls \u{b7} ".to_string();
    settings.append(codec.as_str());
    settings.append(" \u{b7} storage=");
    settings.append(store);
    [
        "".to_string(),
        name,
        settings,
        "MIT \u{b7} github.com/nsinenko/bare-server".to_string(),
        "".to_string(),
    ]
}

/// The one-line form, for logs and scripts: the hyphenated name, the version and
/// the target.
pub fn one_line(target: &str) -> (r: String)
    ensures
        r@ == "bare-server "@ + VERSION@ + " ("@ + target@ + ")"@,
{
    let mut out = "bare-server ".to_string();
    out.append(VERSION);
    out.append(" (");
    out.append(target);
    out.append(")");
    out
}

/// A row of the banner, without the blanks that would end it.
pub open spec fn banner_row(
    row: int,
    colour: bool,
    storage: Storage,
    brotli_quality: nat,
    compression: bool,
) -> Seq<char> {
    let mark = if colour {
        tinted(mark_text(row), 0)
    } else {
        mark_text(row)
    };
    trimmed_end(" "@ + mark + " "@ + side_text(row, storage, brotli_quality, compression))
}

/// The first rows of the banner, each on its line.
pub open spec fn banner_rows(
    count: nat,
    colour: bool,
    storage: Storage,
    brotli_quality: nat,
    compression: bool,
) -> Seq<char>
    decreases count,
{
    if count == 0 {
        "\n"@
    } else {
        banner_rows((count - 1) as nat, colour, storage, brotli_quality, compression) + banner_row(
            count - 1,
            colour,
            storage,
            brotli_quality,
            compression,
        ) + "\n"@
    }
}

/// The banner: the mark with its side text between two blank lines, or one line
/// of ASCII.
pub open spec fn banner_text(
    unicode: bool,
    colour: bool,
    storage: Storage,
    brotli_quality: nat,
    compression: bool,
) -> Seq<char> {
    if unicode {
        banner_rows(5, colour, storage, brotli_quality, compression) + "\n"@
    } else {
        "[ ## ### ] bare server "@ + VERSION@ + "\n"@
    }
}

/// Without colour, the banner holds no escape.
pub proof fn law_no_colour_no_escapes(
    unicode: bool,
    storage: Storage,
    brotli_quality: nat,
    compression: bool,
)
    ensures
        !banner_text(unicode, false, storage, brotli_quality, compression).contains('\x1b'),
{
    reveal_strlit("[ ## ### ] bare server ");
    reveal_strlit("0.2.1");
    reveal_strlit("\n");
    if unicode {
        lemma_rows_without_escapes(5, storage, brotli_quality, compression);
    }
}

/// Rows without colour hold no escape.
proof fn lemma_rows_without_escapes(
    count: nat,
    storage: Storage,
    brotli_quality: nat,
    compression: bool,
)
    ensures
        !banner_rows(count, false, storage, brotli_quality, compression).contains('\x1b'),
    decreases count,
{
    reveal_strlit("\n");
    if count > 0 {
        lemma_rows_without_escapes((count - 1) as nat, storage, brotli_quality, compression);
        lemma_sides_without_escapes(count - 1, storage, brotli_quality, compression);
        lemma_mark_without_escapes(count - 1);
        reveal_strlit(" ");
        let row = " "@ + mark_text(count - 1) + " "@ + side_text(
            count - 1,
            storage,
            brotli_quality,
            compression,
        );
        assert(!row.contains('\x1b'));
        lemma_trimmed_end_keeps_out(row, '\x1b');
    }
}

/// The mark holds no escape.
proof fn lemma_mark_without_escapes(row: int)
    ensures
        !mark_text(row).contains('\x1b'),
{
    reveal_strlit("\u{250c}\u{2500}\u{2500}     \u{2500}\u{2500}\u{2510}");
    reveal_strlit("\u{2502}  \u{2588}\u{2588} \u{2588}\u{2588}\u{2588} \u{2502}");
    reveal_strlit("\u{2514}\u{2500}\u{2500}     \u{2500}\u{2500}\u{2518}");
    reveal_strlit("\u{2502}         \u{2502}");
}

/// The side text holds no escape.
proof fn lemma_sides_without_escapes(
    row: int,
    storage: Storage,
    brotli_quality: nat,
    compression: bool,
)
    ensures
        !side_text(row, storage, brotli_quality, compression).contains('\x1b'),
{
    reveal_strlit("bare server ");
    reveal_strlit("0.2.1");
    reveal_strlit("brotli q");
    reveal_strlit("no compression");
    reveal_strlit("memory");
    reveal_strlit("disk");
    reveal_strlit("rustls \u{b7} ");
    reveal_strlit(" \u{b7} storage=");
    reveal_strlit("MIT \u{b7} github.com/nsinenko/bare-server");
    reveal_strlit("");
    lemma_digits_without_escapes(brotli_quality);
}

/// A number holds no escape.
proof fn lemma_digits_without_escapes(n: nat)
    ensures
        !dec_text(n).contains('\x1b'),
    decreases n,
{
    if n >= 10 {
        lemma_digits_without_escapes(n / 10);
    }
}

/// Trimming brings in nothing new.
proof fn lemma_trimmed_end_keeps_out(s: Seq<char>, c: char)
    requires
        !s.contains(c),
    ensures
        !trimmed_end(s).contains(c),
    decreases s.len(),
{
    if s.len() > 0 {
        let rest = s.drop_last();
        assert(!rest.contains(c)) by {
            if rest.contains(c) {
                let i = choose|i: int| 0 <= i < rest.len() && rest[i] == c;
                assert(s[i] == c);
            }
        }
        lemma_trimmed_end_keeps_out(rest, c);
    }
}

/// A tinted row that ends in box drawing ends in no blank, and holds no line
/// break that the row does not hold.
proof fn lemma_tinted_end(row: Seq<char>, blocks_seen: nat)
    requires
        row.len() > 0,
        row.last() != BLOCK,
        row.last() != ' ',
        no_line_break(row),
    ensures
        tinted(row, blocks_seen).len() > 0,
        tinted(row, blocks_seen).last() == 'm',
        no_line_break(tinted(row, blocks_seen)),
    decreases row.len(),
{
    reveal_strlit("\x1b[38;5;166m");
    reveal_strlit("\x1b[38;5;245m");
    reveal_strlit("\x1b[0m");
    lemma_run_end(row, 1);
    let n = run_end(row, 1);
    let run = row.take(n);
    let rest = row.skip(n);
    let seen = if row[0] == BLOCK {
        blocks_seen + 1
    } else {
        blocks_seen
    };
    assert(no_line_break(run));
    assert(no_line_break(tinted_run(run, blocks_seen)));
    if rest.len() == 0 {
        lemma_run_alike(row, 1);
        assert(alike(row[n - 1], row[0]));
        assert(tinted(rest, seen) =~= seq![]);
        assert(tinted(row, blocks_seen) =~= tinted_run(run, blocks_seen));
    } else {
        assert(rest.last() == row.last());
        lemma_tinted_end(rest, seen);
    }
}

/// Every glyph of a run is like its first.
proof fn lemma_run_alike(row: Seq<char>, i: int)
    requires
        1 <= i <= row.len(),
        forall|j: int| 0 <= j < i ==> alike(#[trigger] row[j], row[0]),
    ensures
        forall|j: int| 0 <= j < run_end(row, i) ==> alike(#[trigger] row[j], row[0]),
    decreases row.len() - i,
{
    if i < row.len() && alike(row[i], row[0]) {
        lemma_run_alike(row, i + 1);
    }
}

/// A text that stays on one line.
pub open spec fn no_line_break(s: Seq<char>) -> bool {
    forall|i: int| 0 <= i < s.len() ==> #[trigger] s[i] != '\n' && s[i] != '\r'
}

/// A row of the banner as it stands: the mark, and the side text where there is
/// one.
spec fn plain_row(mark: Seq<char>, side: Seq<char>) -> Seq<char> {
    if side.len() == 0 {
        " "@ + mark
    } else {
        " "@ + mark + " "@ + side
    }
}

/// What ends in no white space is not trimmed.
proof fn lemma_untrimmed(mark: Seq<char>, side: Seq<char>)
    requires
        mark.len() > 0,
        !is_white(mark.last()),
        side.len() > 0 ==> !is_white(side.last()),
    ensures
        trimmed_end(" "@ + mark + " "@ + side) == plain_row(mark, side),
        !is_white(plain_row(mark, side).last()),
        plain_row(mark, side).len() > 0,
{
    reveal_strlit(" ");
    let s = " "@ + mark + " "@ + side;
    if side.len() == 0 {
        assert(s.last() == ' ');
        assert(s.drop_last() =~= " "@ + mark);
        assert((" "@ + mark).last() == mark.last());
        reveal_with_fuel(trimmed_end, 2);
    } else {
        assert(s.last() == side.last());
    }
}

/// The rows of the mark end in box drawing.
proof fn lemma_mark_end(row: int)
    ensures
        mark_text(row).len() > 0,
        mark_text(row).last() != BLOCK,
        !is_white(mark_text(row).last()),
        mark_text(row).last() != ' ',
        no_line_break(mark_text(row)),
{
    reveal_strlit("\u{250c}\u{2500}\u{2500}     \u{2500}\u{2500}\u{2510}");
    reveal_strlit("\u{2502}  \u{2588}\u{2588} \u{2588}\u{2588}\u{2588} \u{2502}");
    reveal_strlit("\u{2514}\u{2500}\u{2500}     \u{2500}\u{2500}\u{2518}");
    reveal_strlit("\u{2502}         \u{2502}");
}

/// A number is on one line, and ends in no white space.
proof fn lemma_number_end(n: nat)
    ensures
        dec_text(n).len() > 0,
        no_line_break(dec_text(n)),
        !is_white(dec_text(n).last()),
    decreases n,
{
    if n >= 10 {
        lemma_number_end(n / 10);
    }
}

/// The side texts end in no white space.
proof fn lemma_side_end(row: int, storage: Storage, brotli_quality: nat, compression: bool)
    ensures
        ({
            let side = side_text(row, storage, brotli_quality, compression);
            no_line_break(side) && (side.len() > 0 ==> !is_white(side.last()))
        }),
{
    reveal_strlit("bare server ");
    reveal_strlit("0.2.1");
    reveal_strlit("brotli q");
    reveal_strlit("no compression");
    reveal_strlit("memory");
    reveal_strlit("disk");
    reveal_strlit("rustls \u{b7} ");
    reveal_strlit(" \u{b7} storage=");
    reveal_strlit("MIT \u{b7} github.com/nsinenko/bare-server");
    reveal_strlit("");
    lemma_number_end(brotli_quality);
}

/// A row of the banner: with colour and without, it is the mark and its side text
/// with nothing trimmed but the blank between them, on one line.
proof fn lemma_banner_row(
    row: int,
    colour: bool,
    storage: Storage,
    brotli_quality: nat,
    compression: bool,
)
    ensures
        ({
            let mark = if colour {
                tinted(mark_text(row), 0)
            } else {
                mark_text(row)
            };
            let side = side_text(row, storage, brotli_quality, compression);
            let text = banner_row(row, colour, storage, brotli_quality, compression);
            &&& text == plain_row(mark, side)
            &&& text.len() > 0
            &&& !is_white(text.last())
            &&& no_line_break(text)
        }),
{
    reveal_strlit(" ");
    let mark = if colour {
        tinted(mark_text(row), 0)
    } else {
        mark_text(row)
    };
    let side = side_text(row, storage, brotli_quality, compression);
    lemma_mark_end(row);
    lemma_tinted_end(mark_text(row), 0);
    lemma_side_end(row, storage, brotli_quality, compression);
    lemma_untrimmed(mark, side);
    assert(no_line_break(plain_row(mark, side)));
}

/// A row with colour shows as the row without.
proof fn lemma_shown_row(
    row: int,
    storage: Storage,
    brotli_quality: nat,
    compression: bool,
    b: Seq<char>,
)
    ensures
        shown(banner_row(row, true, storage, brotli_quality, compression) + b) == banner_row(
            row,
            false,
            storage,
            brotli_quality,
            compression,
        ) + shown(b),
{
    reveal_strlit(" ");
    lemma_banner_row(row, true, storage, brotli_quality, compression);
    lemma_banner_row(row, false, storage, brotli_quality, compression);
    lemma_mark_without_escapes(row);
    lemma_sides_without_escapes(row, storage, brotli_quality, compression);
    let mark = mark_text(row);
    let side = side_text(row, storage, brotli_quality, compression);
    let t = tinted(mark, 0);
    let after = if side.len() == 0 {
        seq![]
    } else {
        " "@ + side
    };
    assert(!after.contains('\x1b'));
    assert(!" "@.contains('\x1b'));
    let text = plain_row(t, side) + b;
    assert(text =~= " "@ + (t + (after + b)));
    lemma_shown_text(" "@, t + (after + b));
    lemma_shown_tinted(mark, 0, after + b);
    lemma_shown_text(after, b);
    assert(" "@ + (mark + (after + shown(b))) =~= plain_row(mark, side) + shown(b));
}

/// Rows with colour show as the rows without.
proof fn lemma_shown_rows(
    count: nat,
    storage: Storage,
    brotli_quality: nat,
    compression: bool,
    b: Seq<char>,
)
    ensures
        shown(banner_rows(count, true, storage, brotli_quality, compression) + b) == banner_rows(
            count,
            false,
            storage,
            brotli_quality,
            compression,
        ) + shown(b),
    decreases count,
{
    reveal_strlit("\n");
    assert(!"\n"@.contains('\x1b'));
    lemma_shown_text("\n"@, b);
    if count > 0 {
        let fewer = (count - 1) as nat;
        let before = banner_rows(fewer, true, storage, brotli_quality, compression);
        let row = banner_row(count - 1, true, storage, brotli_quality, compression);
        let plain = banner_row(count - 1, false, storage, brotli_quality, compression);
        assert(before + row + "\n"@ + b =~= before + (row + ("\n"@ + b)));
        lemma_shown_rows(fewer, storage, brotli_quality, compression, row + ("\n"@ + b));
        lemma_shown_row(count - 1, storage, brotli_quality, compression, "\n"@ + b);
        let shorter = banner_rows(fewer, false, storage, brotli_quality, compression);
        assert(shorter + (plain + ("\n"@ + shown(b))) =~= shorter + plain + "\n"@ + shown(b));
    }
}

/// Colour is all that colour adds: the coloured banner without its escapes is the
/// plain one.
pub proof fn law_colour_adds_only_escapes(
    unicode: bool,
    storage: Storage,
    brotli_quality: nat,
    compression: bool,
)
    ensures
        shown(banner_text(unicode, true, storage, brotli_quality, compression)) == banner_text(
            unicode,
            false,
            storage,
            brotli_quality,
            compression,
        ),
{
    let plain = banner_text(unicode, false, storage, brotli_quality, compression);
    if unicode {
        reveal_strlit("\n");
        assert(!"\n"@.contains('\x1b'));
        lemma_shown_rows(5, storage, brotli_quality, compression, "\n"@);
        lemma_shown_text("\n"@, seq![]);
        assert("\n"@ + seq![] =~= "\n"@);
    } else {
        law_no_colour_no_escapes(unicode, storage, brotli_quality, compression);
        lemma_shown_text(plain, seq![]);
        assert(plain + seq![] =~= plain);
    }
}

/// The lines of the banner: a blank one, the first rows of the mark, and what
/// follows.
spec fn banner_lines(
    count: nat,
    colour: bool,
    storage: Storage,
    brotli_quality: nat,
    compression: bool,
) -> Seq<Seq<char>>
    decreases count,
{
    if count == 0 {
        seq![seq![]]
    } else {
        banner_lines((count - 1) as nat, colour, storage, brotli_quality, compression).push(
            banner_row(count - 1, colour, storage, brotli_quality, compression),
        )
    }
}

/// A line, its end, and more.
proof fn lemma_line_first(line: Seq<char>, rest: Seq<char>)
    requires
        no_line_break(line),
    ensures
        lines_of(line + "\n"@ + rest) == seq![line] + lines_of(rest),
{
    reveal_strlit("\n");
    let s = line + "\n"@ + rest;
    assert forall|j: int| 0 <= j < line.len() implies s[j] != '\n' by {
        assert(s[j] == line[j]);
    }
    assert(s[line.len() as int] == '\n');
    lemma_first_of_is(s, '\n', line.len() as int);
    assert(s.take(line.len() as int) =~= line);
    assert(s.skip(line.len() as int + 1) =~= rest);
}

/// The rows are the lines that they stand on.
proof fn lemma_rows_are_lines(
    count: nat,
    colour: bool,
    storage: Storage,
    brotli_quality: nat,
    compression: bool,
    rest: Seq<char>,
)
    ensures
        lines_of(banner_rows(count, colour, storage, brotli_quality, compression) + rest)
            == banner_lines(count, colour, storage, brotli_quality, compression) + lines_of(rest),
    decreases count,
{
    if count == 0 {
        let none: Seq<char> = seq![];
        assert(none + "\n"@ + rest =~= "\n"@ + rest);
        lemma_line_first(none, rest);
    } else {
        let fewer = (count - 1) as nat;
        let before = banner_rows(fewer, colour, storage, brotli_quality, compression);
        let row = banner_row(count - 1, colour, storage, brotli_quality, compression);
        lemma_banner_row(count - 1, colour, storage, brotli_quality, compression);
        assert(before + row + "\n"@ + rest =~= before + (row + "\n"@ + rest));
        lemma_rows_are_lines(
            fewer,
            colour,
            storage,
            brotli_quality,
            compression,
            row + "\n"@ + rest,
        );
        lemma_line_first(row, rest);
        let lines = banner_lines(fewer, colour, storage, brotli_quality, compression);
        assert(lines + (seq![row] + lines_of(rest)) =~= lines.push(row) + lines_of(rest));
    }
}

/// The banner is seven lines, a blank one before and behind the five rows of the
/// mark, and none of them ends in a blank. Without box drawing it is one line of
/// ASCII, the same whatever the settings are.
pub proof fn law_banner_lines(
    colour: bool,
    storage: Storage,
    brotli_quality: nat,
    compression: bool,
)
    ensures
        lines_of(banner_text(true, colour, storage, brotli_quality, compression)) == seq![
            seq![],
            banner_row(0, colour, storage, brotli_quality, compression),
            banner_row(1, colour, storage, brotli_quality, compression),
            banner_row(2, colour, storage, brotli_quality, compression),
            banner_row(3, colour, storage, brotli_quality, compression),
            banner_row(4, colour, storage, brotli_quality, compression),
            seq![],
        ],
        forall|row: int|
            0 <= row < 5 ==> (#[trigger] banner_row(
                row,
                colour,
                storage,
                brotli_quality,
                compression,
            )).len() > 0 && !is_white(
                banner_row(row, colour, storage, brotli_quality, compression).last(),
            ),
        banner_text(false, colour, storage, brotli_quality, compression) == banner_text(
            false,
            false,
            Storage::Memory,
            0,
            false,
        ),
        is_ascii_chars(banner_text(false, colour, storage, brotli_quality, compression)),
        lines_of(banner_text(false, colour, storage, brotli_quality, compression)).len() == 1,
{
    let none: Seq<char> = seq![];
    lemma_line_first(none, none);
    assert(none + "\n"@ + none =~= "\n"@);
    assert(lines_of(none) =~= seq![]);
    lemma_rows_are_lines(5, colour, storage, brotli_quality, compression, "\n"@);
    reveal_with_fuel(banner_lines, 6);
    assert forall|row: int| 0 <= row < 5 implies (#[trigger] banner_row(
        row,
        colour,
        storage,
        brotli_quality,
        compression,
    )).len() > 0 && !is_white(
        banner_row(row, colour, storage, brotli_quality, compression).last(),
    ) by {
        lemma_banner_row(row, colour, storage, brotli_quality, compression);
    }
    assert(lines_of(banner_text(true, colour, storage, brotli_quality, compression)) =~= seq![
        none,
        banner_row(0, colour, storage, brotli_quality, compression),
        banner_row(1, colour, storage, brotli_quality, compression),
        banner_row(2, colour, storage, brotli_quality, compression),
        banner_row(3, colour, storage, brotli_quality, compression),
        banner_row(4, colour, storage, brotli_quality, compression),
        none,
    ]);
    reveal_strlit("[ ## ### ] bare server ");
    reveal_strlit("0.2.1");
    reveal_strlit("\n");
    let line = "[ ## ### ] bare server "@ + VERSION@;
    lemma_line_first(line, none);
    assert(line + "\n"@ + none =~= line + "\n"@);
}

/// How a row is tinted, run by run: blanks stay as they are; the first run of blocks is
/// in the accent and no later one is; everything else is muted. What is tinted is
/// followed by the end of its tint.
pub proof fn law_how_a_row_is_tinted(run: Seq<char>, rest: Seq<char>, blocks_seen: nat)
    requires
        run.len() > 0,
        rest.len() > 0 ==> !alike(rest[0], run[0]),
        forall|i: int| 0 <= i < run.len() ==> alike(#[trigger] run[i], run[0]),
    ensures
        run[0] == ' ' ==> tinted(run + rest, blocks_seen) == run + tinted(rest, blocks_seen),
        run[0] == '\u{2588}' && blocks_seen == 0 ==> tinted(run + rest, blocks_seen)
            == "\x1b[38;5;166m"@ + run + "\x1b[0m"@ + tinted(rest, 1),
        run[0] == '\u{2588}' && blocks_seen > 0 ==> tinted(run + rest, blocks_seen) == run + tinted(
            rest,
            blocks_seen + 1,
        ),
        run[0] != ' ' && run[0] != '\u{2588}' ==> tinted(run + rest, blocks_seen)
            == "\x1b[38;5;245m"@ + run + "\x1b[0m"@ + tinted(rest, blocks_seen),
        alike(run[0], ' ') <==> run[0] == ' ',
        alike(run[0], '\u{2588}') <==> run[0] == '\u{2588}',
{
    let row = run + rest;
    lemma_run_of(run, rest, 1);
    assert(row.take(run.len() as int) =~= run);
    assert(row.skip(run.len() as int) =~= rest);
}

/// A run ends where the next begins.
proof fn lemma_run_of(run: Seq<char>, rest: Seq<char>, i: int)
    requires
        1 <= i <= run.len(),
        rest.len() > 0 ==> !alike(rest[0], run[0]),
        forall|i: int| 0 <= i < run.len() ==> alike(#[trigger] run[i], run[0]),
    ensures
        run_end(run + rest, i) == run.len(),
    decreases run.len() - i,
{
    let row = run + rest;
    if i < run.len() {
        assert(row[i] == run[i]);
        assert(alike(run[i], run[0]));
        lemma_run_of(run, rest, i + 1);
    } else if rest.len() > 0 {
        assert(row[i] == rest[0]);
    }
}

/// What the side text says: the name and the version, how content is compressed and
/// where it is kept, and where the project lives; and nothing beside the first row and
/// the last.
pub proof fn law_what_the_banner_says(storage: Storage, quality: nat)
    ensures
        side_text(0, storage, quality, true).len() == 0,
        side_text(4, storage, quality, true).len() == 0,
        side_text(0, storage, quality, false).len() == 0,
        side_text(4, storage, quality, false).len() == 0,
        side_text(1, storage, quality, true) == "bare server 0.2.1"@,
        side_text(1, storage, quality, false) == "bare server 0.2.1"@,
        side_text(2, Storage::Memory, quality, true) == "rustls \u{b7} brotli q"@ + dec_text(quality)
            + " \u{b7} storage=memory"@,
        side_text(2, Storage::Disk, quality, true) == "rustls \u{b7} brotli q"@ + dec_text(quality)
            + " \u{b7} storage=disk"@,
        side_text(2, Storage::Memory, quality, false)
            == "rustls \u{b7} no compression \u{b7} storage=memory"@,
        side_text(2, Storage::Disk, quality, false)
            == "rustls \u{b7} no compression \u{b7} storage=disk"@,
        side_text(3, storage, quality, true) == "MIT \u{b7} github.com/nsinenko/bare-server"@,
        side_text(3, storage, quality, false) == "MIT \u{b7} github.com/nsinenko/bare-server"@,
{
    reveal_strlit("");
    reveal_strlit("bare server ");
    reveal_strlit("0.2.1");
    reveal_strlit("bare server 0.2.1");
    reveal_strlit("brotli q");
    reveal_strlit("no compression");
    reveal_strlit("memory");
    reveal_strlit("disk");
    reveal_strlit("rustls \u{b7} ");
    reveal_strlit(" \u{b7} storage=");
    reveal_strlit("rustls \u{b7} brotli q");
    reveal_strlit(" \u{b7} storage=memory");
    reveal_strlit(" \u{b7} storage=disk");
    reveal_strlit("rustls \u{b7} no compression \u{b7} storage=memory");
    reveal_strlit("rustls \u{b7} no compression \u{b7} storage=disk");
    assert(side_text(1, storage, quality, true) =~= "bare server 0.2.1"@);
    assert(side_text(2, Storage::Memory, quality, true) =~= "rustls \u{b7} brotli q"@ + dec_text(quality)
        + " \u{b7} storage=memory"@);
    assert(side_text(2, Storage::Disk, quality, true) =~= "rustls \u{b7} brotli q"@ + dec_text(quality)
        + " \u{b7} storage=disk"@);
    assert(side_text(2, Storage::Memory, quality, false)
        =~= "rustls \u{b7} no compression \u{b7} storage=memory"@);
    assert(side_text(2, Storage::Disk, quality, false)
        =~= "rustls \u{b7} no compression \u{b7} storage=disk"@);
}

/// A row of the banner is a blank, the mark as it is to be shown, and the side text
/// behind another blank where there is one.
pub proof fn law_rows_are_the_mark_and_its_side(
    row: int,
    colour: bool,
    storage: Storage,
    quality: nat,
    compression: bool,
)
    ensures
        ({
            let side = side_text(row, storage, quality, compression);
            let text = banner_row(row, colour, storage, quality, compression);
            let shape = if colour {
                tinted(mark_text(row), 0)
            } else {
                mark_text(row)
            };
            &&& side.len() == 0 ==> text == " "@ + shape
            &&& side.len() > 0 ==> text == " "@ + shape + " "@ + side
        }),
{
    lemma_banner_row(row, colour, storage, quality, compression);
}

/// A locale claims UTF-8 where its name says so anywhere, in whatever case, and only
/// there; one that is not set claims nothing.
pub proof fn law_which_locales_claim_utf8(a: Seq<char>, x: Seq<char>, b: Seq<char>)
    ensures
        !claims_utf8(None),
        uppered(x) == "UTF-8"@ ==> claims_utf8(Some(a + x + b)),
        claims_utf8(Some(x)) ==> exists|i: int|
            0 <= i && i + 5 <= x.len() && #[trigger] uppered(x.subrange(i, i + 5)) == "UTF-8"@,
{
    reveal_strlit("UTF-8");
    let word = "UTF-8"@;
    let s = a + x + b;
    crate::text::lemma_first_run_from(uppered(s), word, 0);
    crate::text::lemma_first_run_from(uppered(x), word, 0);
    if uppered(x) == word {
        assert(uppered(x).len() == x.len());
        let n = a.len() as int;
        assert(uppered(s).subrange(n, n + word.len()) =~= word) by {
            assert forall|i: int| 0 <= i < 5 implies uppered(s)[n + i] == word[i] by {
                assert(s[n + i] == x[i]);
                assert(uppered(x)[i] == word[i]);
            }
        }
    }
    if claims_utf8(Some(x)) {
        let i = first_run(uppered(x), word)->0;
        assert(uppered(x).subrange(i, i + word.len()) == word);
        assert(uppered(x.subrange(i, i + 5)) =~= uppered(x).subrange(i, i + 5));
    }
}

/// Renders the banner. `unicode` selects the box drawing over the ASCII form,
/// `colour` tints the mark.
pub fn render(
    unicode: bool,
    colour: bool,
    storage: Storage,
    brotli_quality: u32,
    compression: bool,
) -> (r: String)
    ensures
        r@ == banner_text(unicode, colour, storage, brotli_quality as nat, compression),
{
    if !unicode {
        let mut out = "[ ## ### ] bare server ".to_string();
        out.append(VERSION);
        out.append("\n");
        return out;
    }
    let sides = sides(storage, brotli_quality, compression);
    let mut out = "\n".to_string();
    let mut i: usize = 0;
    while i < 5
        invariant
            i <= 5,
            forall|i: int|
                0 <= i < 5 ==> (#[trigger] sides@[i])@ == side_text(
                    i,
                    storage,
                    brotli_quality as nat,
                    compression,
                ),
            out@ == banner_rows(i as nat, colour, storage, brotli_quality as nat, compression),
        decreases 5 - i,
    {
        let mut row = " ".to_string();
        if colour {
            row.append(tint(mark(i)).as_str());
        } else {
            row.append(mark(i));
        }
        row.append(" ");
        assert(sides@[i as int]@ == side_text(i as int, storage, brotli_quality as nat, compression));
        row.append(sides[i].as_str());
        let chars = chars_of(row.as_str());
        push_chars(&mut out, trim_end(chars.as_slice()));
        out.append("\n");
        i = i + 1;
    }
    out.append("\n");
    out
}

} // verus!
