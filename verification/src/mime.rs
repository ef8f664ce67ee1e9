//! Filename extension to MIME type: a small table. Anything unknown is
//! `application/octet-stream`.
use vstd::prelude::*;

use crate::text::{
    chars_of, is_word, law_a_back_cut_is_at_the_last, lowered, rcut, rsplit_once, to_lower,
};

verus! {

/// The type of a lower-case extension.
pub open spec fn mime_of_ext(ext: Seq<char>) -> Seq<char> {
    if ext == "html"@ || ext == "htm"@ {
        "text/html; charset=utf-8"@
    } else if ext == "css"@ {
        "text/css; charset=utf-8"@
    } else if ext == "js"@ || ext == "mjs"@ {
        "text/javascript; charset=utf-8"@
    } else if ext == "json"@ {
        "application/json; charset=utf-8"@
    } else if ext == "txt"@ {
        "text/plain; charset=utf-8"@
    } else if ext == "xml"@ {
        "application/xml; charset=utf-8"@
    } else if ext == "svg"@ {
        "image/svg+xml"@
    } else if ext == "png"@ {
        "image/png"@
    } else if ext == "jpg"@ || ext == "jpeg"@ {
        "image/jpeg"@
    } else if ext == "gif"@ {
        "image/gif"@
    } else if ext == "webp"@ {
        "image/webp"@
    } else if ext == "avif"@ {
        "image/avif"@
    } else if ext == "ico"@ {
        "image/x-icon"@
    } else if ext == "woff"@ {
        "font/woff"@
    } else if ext == "woff2"@ {
        "font/woff2"@
    } else if ext == "ttf"@ {
        "font/ttf"@
    } else if ext == "pdf"@ {
        "application/pdf"@
    } else if ext == "wasm"@ {
        "application/wasm"@
    } else if ext == "mp4"@ {
        "video/mp4"@
    } else if ext == "webm"@ {
        "video/webm"@
    } else if ext == "mp3"@ {
        "audio/mpeg"@
    } else {
        "application/octet-stream"@
    }
}

/// The type of a path: that of what follows its last dot, ASCII case aside.
pub open spec fn mime_of(path: Seq<char>) -> Seq<char> {
    match rcut(path, '.') {
        Some((_, ext)) => mime_of_ext(lowered(ext)),
        None => "application/octet-stream"@,
    }
}

/// Looks up the type of a path.
pub fn mime_for(path: &str) -> (r: &'static str)
    ensures
        r@ == mime_of(path@),
{
    let chars = chars_of(path);
    let lower = match rsplit_once(chars.as_slice(), '.') {
        Some((_, ext)) => to_lower(ext),
        None => return "application/octet-stream",
    };
    let ext = lower.as_slice();
    if is_word(ext, "html") || is_word(ext, "htm") {
        "text/html; charset=utf-8"
    } else if is_word(ext, "css") {
        "text/css; charset=utf-8"
    } else if is_word(ext, "js") || is_word(ext, "mjs") {
        "text/javascript; charset=utf-8"
    } else if is_word(ext, "json") {
        "application/json; charset=utf-8"
    } else if is_word(ext, "txt") {
        "text/plain; charset=utf-8"
    } else if is_word(ext, "xml") {
        "application/xml; charset=utf-8"
    } else if is_word(ext, "svg") {
        "image/svg+xml"
    } else if is_word(ext, "png") {
        "image/png"
    } else if is_word(ext, "jpg") || is_word(ext, "jpeg") {
        "image/jpeg"
    } else if is_word(ext, "gif") {
        "image/gif"
    } else if is_word(ext, "webp") {
        "image/webp"
    } else if is_word(ext, "avif") {
        "image/avif"
    } else if is_word(ext, "ico") {
        "image/x-icon"
    } else if is_word(ext, "woff") {
        "font/woff"
    } else if is_word(ext, "woff2") {
        "font/woff2"
    } else if is_word(ext, "ttf") {
        "font/ttf"
    } else if is_word(ext, "pdf") {
        "application/pdf"
    } else if is_word(ext, "wasm") {
        "application/wasm"
    } else if is_word(ext, "mp4") {
        "video/mp4"
    } else if is_word(ext, "webm") {
        "video/webm"
    } else if is_word(ext, "mp3") {
        "audio/mpeg"
    } else {
        "application/octet-stream"
    }
}

// ----------------------------------------------------------------------- laws

/// What follows the last dot of a path, ASCII case aside, decides its type, and
/// nothing before it does.
pub proof fn law_the_extension_decides_the_type(stem: Seq<char>, ext: Seq<char>)
    requires
        !ext.contains('.'),
    ensures
        lowered(ext) == "html"@ ==> mime_of(stem + "."@ + ext) == "text/html; charset=utf-8"@,
        lowered(ext) == "htm"@ ==> mime_of(stem + "."@ + ext) == "text/html; charset=utf-8"@,
        lowered(ext) == "css"@ ==> mime_of(stem + "."@ + ext) == "text/css; charset=utf-8"@,
        lowered(ext) == "js"@ ==> mime_of(stem + "."@ + ext) == "text/javascript; charset=utf-8"@,
        lowered(ext) == "mjs"@ ==> mime_of(stem + "."@ + ext) == "text/javascript; charset=utf-8"@,
        lowered(ext) == "json"@ ==> mime_of(stem + "."@ + ext) == "application/json; charset=utf-8"@,
        lowered(ext) == "txt"@ ==> mime_of(stem + "."@ + ext) == "text/plain; charset=utf-8"@,
        lowered(ext) == "xml"@ ==> mime_of(stem + "."@ + ext) == "application/xml; charset=utf-8"@,
        lowered(ext) == "svg"@ ==> mime_of(stem + "."@ + ext) == "image/svg+xml"@,
        lowered(ext) == "png"@ ==> mime_of(stem + "."@ + ext) == "image/png"@,
        lowered(ext) == "jpg"@ ==> mime_of(stem + "."@ + ext) == "image/jpeg"@,
        lowered(ext) == "jpeg"@ ==> mime_of(stem + "."@ + ext) == "image/jpeg"@,
        lowered(ext) == "gif"@ ==> mime_of(stem + "."@ + ext) == "image/gif"@,
        lowered(ext) == "webp"@ ==> mime_of(stem + "."@ + ext) == "image/webp"@,
        lowered(ext) == "avif"@ ==> mime_of(stem + "."@ + ext) == "image/avif"@,
        lowered(ext) == "ico"@ ==> mime_of(stem + "."@ + ext) == "image/x-icon"@,
        lowered(ext) == "woff"@ ==> mime_of(stem + "."@ + ext) == "font/woff"@,
        lowered(ext) == "woff2"@ ==> mime_of(stem + "."@ + ext) == "font/woff2"@,
        lowered(ext) == "ttf"@ ==> mime_of(stem + "."@ + ext) == "font/ttf"@,
        lowered(ext) == "pdf"@ ==> mime_of(stem + "."@ + ext) == "application/pdf"@,
        lowered(ext) == "wasm"@ ==> mime_of(stem + "."@ + ext) == "application/wasm"@,
        lowered(ext) == "mp4"@ ==> mime_of(stem + "."@ + ext) == "video/mp4"@,
        lowered(ext) == "webm"@ ==> mime_of(stem + "."@ + ext) == "video/webm"@,
        lowered(ext) == "mp3"@ ==> mime_of(stem + "."@ + ext) == "audio/mpeg"@,
{
    reveal_strlit("html");
    assert("html"@.len() == 4 && "html"@[0] == 'h' && "html"@[1] == 't' && "html"@[2] == 'm' && "html"@[3] == 'l');
    reveal_strlit("htm");
    assert("htm"@.len() == 3 && "htm"@[0] == 'h' && "htm"@[1] == 't' && "htm"@[2] == 'm');
    reveal_strlit("css");
    assert("css"@.len() == 3 && "css"@[0] == 'c' && "css"@[1] == 's' && "css"@[2] == 's');
    reveal_strlit("js");
    assert("js"@.len() == 2 && "js"@[0] == 'j' && "js"@[1] == 's');
    reveal_strlit("mjs");
    assert("mjs"@.len() == 3 && "mjs"@[0] == 'm' && "mjs"@[1] == 'j' && "mjs"@[2] == 's');
    reveal_strlit("json");
    assert("json"@.len() == 4 && "json"@[0] == 'j' && "json"@[1] == 's' && "json"@[2] == 'o' && "json"@[3] == 'n');
    reveal_strlit("txt");
    assert("txt"@.len() == 3 && "txt"@[0] == 't' && "txt"@[1] == 'x' && "txt"@[2] == 't');
    reveal_strlit("xml");
    assert("xml"@.len() == 3 && "xml"@[0] == 'x' && "xml"@[1] == 'm' && "xml"@[2] == 'l');
    reveal_strlit("svg");
    assert("svg"@.len() == 3 && "svg"@[0] == 's' && "svg"@[1] == 'v' && "svg"@[2] == 'g');
    reveal_strlit("png");
    assert("png"@.len() == 3 && "png"@[0] == 'p' && "png"@[1] == 'n' && "png"@[2] == 'g');
    reveal_strlit("jpg");
    assert("jpg"@.len() == 3 && "jpg"@[0] == 'j' && "jpg"@[1] == 'p' && "jpg"@[2] == 'g');
    reveal_strlit("jpeg");
    assert("jpeg"@.len() == 4 && "jpeg"@[0] == 'j' && "jpeg"@[1] == 'p' && "jpeg"@[2] == 'e' && "jpeg"@[3] == 'g');
    reveal_strlit("gif");
    assert("gif"@.len() == 3 && "gif"@[0] == 'g' && "gif"@[1] == 'i' && "gif"@[2] == 'f');
    reveal_strlit("webp");
    assert("webp"@.len() == 4 && "webp"@[0] == 'w' && "webp"@[1] == 'e' && "webp"@[2] == 'b' && "webp"@[3] == 'p');
    reveal_strlit("avif");
    assert("avif"@.len() == 4 && "avif"@[0] == 'a' && "avif"@[1] == 'v' && "avif"@[2] == 'i' && "avif"@[3] == 'f');
    reveal_strlit("ico");
    assert("ico"@.len() == 3 && "ico"@[0] == 'i' && "ico"@[1] == 'c' && "ico"@[2] == 'o');
    reveal_strlit("woff");
    assert("woff"@.len() == 4 && "woff"@[0] == 'w' && "woff"@[1] == 'o' && "woff"@[2] == 'f' && "woff"@[3] == 'f');
    reveal_strlit("woff2");
    assert("woff2"@.len() == 5 && "woff2"@[0] == 'w' && "woff2"@[1] == 'o' && "woff2"@[2] == 'f' && "woff2"@[3] == 'f' && "woff2"@[4] == '2');
    reveal_strlit("ttf");
    assert("ttf"@.len() == 3 && "ttf"@[0] == 't' && "ttf"@[1] == 't' && "ttf"@[2] == 'f');
    reveal_strlit("pdf");
    assert("pdf"@.len() == 3 && "pdf"@[0] == 'p' && "pdf"@[1] == 'd' && "pdf"@[2] == 'f');
    reveal_strlit("wasm");
    assert("wasm"@.len() == 4 && "wasm"@[0] == 'w' && "wasm"@[1] == 'a' && "wasm"@[2] == 's' && "wasm"@[3] == 'm');
    reveal_strlit("mp4");
    assert("mp4"@.len() == 3 && "mp4"@[0] == 'm' && "mp4"@[1] == 'p' && "mp4"@[2] == '4');
    reveal_strlit("webm");
    assert("webm"@.len() == 4 && "webm"@[0] == 'w' && "webm"@[1] == 'e' && "webm"@[2] == 'b' && "webm"@[3] == 'm');
    reveal_strlit("mp3");
    assert("mp3"@.len() == 3 && "mp3"@[0] == 'm' && "mp3"@[1] == 'p' && "mp3"@[2] == '3');
    lemma_extension(stem, ext);
}

/// An extension that is none of the known ones, or no extension at all, says
/// nothing of the content.
pub proof fn law_other_files_are_plain_bytes(stem: Seq<char>, ext: Seq<char>)
    requires
        !ext.contains('.'),
    ensures
        (lowered(ext) != "html"@
            && lowered(ext) != "htm"@
            && lowered(ext) != "css"@
            && lowered(ext) != "js"@
            && lowered(ext) != "mjs"@
            && lowered(ext) != "json"@
            && lowered(ext) != "txt"@
            && lowered(ext) != "xml"@
            && lowered(ext) != "svg"@
            && lowered(ext) != "png"@
            && lowered(ext) != "jpg"@
            && lowered(ext) != "jpeg"@
            && lowered(ext) != "gif"@
            && lowered(ext) != "webp"@
            && lowered(ext) != "avif"@
            && lowered(ext) != "ico"@
            && lowered(ext) != "woff"@
            && lowered(ext) != "woff2"@
            && lowered(ext) != "ttf"@
            && lowered(ext) != "pdf"@
            && lowered(ext) != "wasm"@
            && lowered(ext) != "mp4"@
            && lowered(ext) != "webm"@
            && lowered(ext) != "mp3"@) ==> mime_of(stem + "."@ + ext) == "application/octet-stream"@,
        mime_of(ext) == "application/octet-stream"@,
{
    lemma_extension(stem, ext);
}

proof fn lemma_extension(stem: Seq<char>, ext: Seq<char>)
    requires
        !ext.contains('.'),
    ensures
        rcut(stem + "."@ + ext, '.') == Some((stem, ext)),
        rcut(ext, '.') is None,
{
    reveal_strlit(".");
    assert("."@ =~= seq!['.']);
    law_a_back_cut_is_at_the_last(stem, '.', ext);
}

} // verus!
