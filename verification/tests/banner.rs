//! The boot banner.
use bare_server::banner::{locale_is_utf8, mark, one_line, render, sides, tint, EMBER, MUTED, RESET, VERSION};
use bare_server::config::Storage;

#[test]
fn locale_detection_only_accepts_utf8() {
    assert!(locale_is_utf8(Some("en_US.UTF-8".into())));
    assert!(locale_is_utf8(Some("C.utf-8".into())));
    assert!(!locale_is_utf8(Some("en_US.ISO-8859-1".into())));
    assert!(!locale_is_utf8(Some("C".into())));
    assert!(!locale_is_utf8(None));
}

#[test]
fn ascii_form_is_one_line_and_has_no_box_drawing() {
    let s = render(false, false, Storage::Memory, 11, true);
    assert_eq!(s.lines().count(), 1);
    assert!(s.contains("bare server"), "{s}");
    assert!(s.is_ascii(), "the ASCII fallback must not emit non-ASCII: {s:?}");
}

#[test]
fn unicode_form_is_the_mark_plus_side_text() {
    let s = render(true, false, Storage::Memory, 11, true);
    let lines: Vec<&str> = s.lines().collect();
    assert_eq!(lines.len(), 7, "blank, five mark rows, blank: {s:?}");
    assert_eq!(lines[0], "");
    assert_eq!(lines[6], "");
    assert!(lines[2].contains("bare server"), "{s}");
    assert!(lines[3].contains("storage=memory"), "{s}");
    assert!(lines[4].contains("MIT"), "{s}");
    // No stray escape when colour is off.
    assert!(!s.contains('\x1b'), "{s:?}");
}

#[test]
fn the_mark_rows_are_all_the_same_width() {
    // The side text is appended after the mark, so a ragged mark would make
    // the whole banner ragged.
    let w: Vec<usize> = (0..5).map(|row| mark(row).chars().count()).collect();
    assert!(w.iter().all(|n| *n == w[0]), "mark rows differ in width: {w:?}");
}

#[test]
fn the_accent_lands_once_and_only_on_the_header_block() {
    let s = render(true, true, Storage::Memory, 11, true);
    // The one-accent-per-surface rule: ember appears exactly once, wrapping
    // the header block. The body block is left at the terminal foreground.
    assert_eq!(s.matches(EMBER).count(), 1, "the accent appears once: {s:?}");
    assert!(s.contains(&format!("{EMBER}\u{2588}\u{2588}{RESET}")), "{s:?}");
    assert!(!s.contains(&format!("{EMBER}\u{2588}\u{2588}\u{2588}")), "body must stay untinted: {s:?}");
}

#[test]
fn brackets_are_muted_and_blocks_are_not() {
    let s = render(true, true, Storage::Memory, 11, true);
    assert!(s.contains(&format!("{MUTED}\u{250c}\u{2500}\u{2500}{RESET}")), "top arm muted: {s:?}");
    assert!(s.contains(&format!("{MUTED}\u{2502}{RESET}")), "stems muted: {s:?}");
    // Every escape opened is closed, or the colour bleeds into the log
    // lines the server prints next.
    let opens = s.matches(MUTED).count() + s.matches(EMBER).count();
    assert_eq!(opens, s.matches(RESET).count(), "unbalanced escapes: {s:?}");
}

#[test]
fn tint_leaves_a_row_visually_unchanged() {
    // Stripping the escapes must give back the original row: the tinting
    // may not add, drop or reorder a single glyph.
    for row in (0..5).map(mark) {
        let painted = tint(row);
        let stripped: String = painted
            .split('\u{1b}')
            .enumerate()
            .map(|(i, part)| if i == 0 { part } else { part.split_once('m').map(|(_, r)| r).unwrap_or("") })
            .collect();
        assert_eq!(stripped, row, "tint altered the row: {painted:?}");
    }
}

#[test]
fn side_text_reports_the_running_configuration() {
    let disk = render(true, false, Storage::Disk, 5, true);
    assert!(disk.contains("storage=disk"), "{disk}");
    assert!(disk.contains("brotli q5"), "{disk}");
    let off = render(true, false, Storage::Memory, 11, false);
    assert!(off.contains("no compression"), "{off}");
}

#[test]
fn one_line_form_is_machine_readable() {
    let s = one_line("x86_64-unknown-linux-musl");
    assert!(s.starts_with("bare-server "), "hyphenated for machines: {s}");
    assert!(s.contains(VERSION), "{s}");
    assert!(s.contains('(') && s.ends_with(')'), "carries the target triple: {s}");
}

#[test]
fn the_banner_is_exact() {
    assert_eq!(
        render(true, false, Storage::Memory, 11, true),
        "\n \u{250c}\u{2500}\u{2500}     \u{2500}\u{2500}\u{2510}\n \
         \u{2502}         \u{2502} bare server 0.2.1\n \
         \u{2502}  \u{2588}\u{2588} \u{2588}\u{2588}\u{2588} \u{2502} rustls \u{b7} brotli q11 \u{b7} storage=memory\n \
         \u{2502}         \u{2502} MIT \u{b7} github.com/nsinenko/bare-server\n \
         \u{2514}\u{2500}\u{2500}     \u{2500}\u{2500}\u{2518}\n\n"
    );
    assert_eq!(render(false, true, Storage::Disk, 3, false), "[ ## ### ] bare server 0.2.1\n");
    assert_eq!(one_line("t"), "bare-server 0.2.1 (t)");
}

#[test]
fn the_side_text_is_exact() {
    assert_eq!(
        sides(Storage::Disk, 5, false),
        ["", "bare server 0.2.1", "rustls \u{b7} no compression \u{b7} storage=disk",
         "MIT \u{b7} github.com/nsinenko/bare-server", ""]
    );
}

#[test]
fn a_run_is_tinted_by_its_kind() {
    assert_eq!(tint(""), "");
    assert_eq!(tint("  "), "  ");
    assert_eq!(
        tint("|\u{2588} \u{2588}"),
        format!("{MUTED}|{RESET}{EMBER}\u{2588}{RESET} \u{2588}")
    );
}

#[test]
fn without_its_escapes_the_coloured_banner_is_the_plain_one() {
    for storage in [Storage::Memory, Storage::Disk] {
        for compression in [true, false] {
            let coloured = render(true, true, storage, 11, compression);
            let bare = coloured.replace(EMBER, "").replace(MUTED, "").replace(RESET, "");
            assert_ne!(coloured, bare);
            assert_eq!(bare, render(true, false, storage, 11, compression));
            assert!(bare.lines().all(|l| l == l.trim_end()), "{bare:?}");
        }
    }
    assert_eq!(
        render(false, true, Storage::Disk, 3, false),
        render(false, false, Storage::Memory, 11, true)
    );
}
