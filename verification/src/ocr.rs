//! Path and text helpers of the OCR tool: what kind of input a file is,
//! where its transcript goes, and how replies and previews are cut.
use vstd::prelude::*;

use crate::shell::builtins::{last_index, spec_split_parent};
use crate::skill_render::{replace, replace_all};
use crate::skills::push_str;
use crate::text::{
    ascii_lower, chars_of, has_prefix, lines, lines_of, slice_vec, starts_with, str_is, string_of,
    to_ascii_lower, trim, trim_end_by, trimmed, Strip,
};

verus! {

broadcast use vstd::string::group_string_axioms;

/// Largest number of PDF pages processed.
pub const MAX_PAGES: usize = 25;
/// Characters of a transcript shown as a preview.
pub const PREVIEW_CHARS: usize = 1500;

/// What kind of document a file is.
#[derive(Clone, Debug, PartialEq, Eq)]
pub enum Input {
    Image(String),
    Pdf,
    Unsupported,
}

/// The first index of `c` in `s`.
pub open spec fn first_index(s: Seq<char>, c: char) -> Option<int>
    decreases s.len(),
{
    if s.len() == 0 {
        None
    } else if s[0] == c {
        Some(0)
    } else {
        match first_index(s.drop_first(), c) {
            Some(i) => Some(i + 1),
            None => None,
        }
    }
}

fn find_first(v: &[char], c: char) -> (r: Option<usize>)
    ensures
        r == (match first_index(v@, c) {
            Some(i) => Some(i as usize),
            None => None::<usize>,
        }),
{
    let mut i: usize = 0;
    assert(v@.skip(0) == v@);
    while i < v.len()
        invariant
            i <= v.len(),
            first_index(v@, c) == (match first_index(v@.skip(i as int), c) {
                Some(j) => Some(j + i),
                None => None,
            }),
        decreases v.len() - i,
    {
        if v[i] == c {
            assert(v@.skip(i as int)[0] == c);
            return Some(i);
        }
        assert(v@.skip(i as int).drop_first() == v@.skip(i + 1));
        i += 1;
    }
    assert(v@.skip(i as int).len() == 0);
    None
}

proof fn lemma_first_index(s: Seq<char>, c: char)
    ensures
        first_index(s, c) matches Some(i) ==> 0 <= i < s.len() && s[i] == c,
    decreases s.len(),
{
    if s.len() > 0 && s[0] != c {
        lemma_first_index(s.drop_first(), c);
    }
}

fn find_last_char(v: &[char], c: char) -> (r: Option<usize>)
    ensures
        r == (match last_index(v@, c) {
            Some(i) => Some(i as usize),
            None => None::<usize>,
        }),
{
    let mut i = v.len();
    assert(v@.take(i as int) =~= v@);
    while i > 0
        invariant
            i <= v.len(),
            last_index(v@, c) == last_index(v@.take(i as int), c),
        decreases i,
    {
        if v[i - 1] == c {
            return Some(i - 1);
        }
        assert(v@.take(i as int).drop_last() =~= v@.take(i - 1));
        i -= 1;
    }
    None
}

pub open spec fn spec_extract_json(text: Seq<char>) -> Option<Seq<char>> {
    match (first_index(text, '{'), last_index(text, '}')) {
        (Some(s), Some(e)) => if e > s {
            Some(text.subrange(s, e + 1))
        } else {
            None
        },
        _ => None,
    }
}

/// The span from the first `{` to the last `}` of a model reply.
pub fn extract_json(text: &str) -> (r: Option<String>)
    ensures
        match (r, spec_extract_json(text@)) {
            (Some(j), Some(s)) => j@ == s,
            (None, None) => true,
            _ => false,
        },
{
    let v = chars_of(text);
    proof {
        lemma_first_index(v@, '{');
    }
    let s = match find_first(v.as_slice(), '{') {
        Some(s) => s,
        None => {
            return None;
        },
    };
    let e = match find_last_char(v.as_slice(), '}') {
        Some(e) => e,
        None => {
            return None;
        },
    };
    proof {
        crate::shell::builtins::lemma_last_index(v@, '}');
        assert(first_index(v@, '{') == Some(s as int));
        assert(last_index(v@, '}') == Some(e as int));
    }
    if e > s {
        Some(string_of(slice_vec(v.as_slice(), s, e + 1).as_slice()))
    } else {
        None
    }
}

/// The file name of `path` split at its last dot.
pub open spec fn split_ext(name: Seq<char>) -> Option<(Seq<char>, Seq<char>)> {
    match last_index(name, '.') {
        Some(i) => Some((name.take(i), name.skip(i + 1))),
        None => None,
    }
}

/// The lowercased extension of the file `path` names.
pub open spec fn spec_extension(path: Seq<char>) -> Option<Seq<char>> {
    match split_ext(spec_split_parent(path).1) {
        Some((_, ext)) => Some(ext.map_values(|c: char| ascii_lower(c))),
        None => None,
    }
}

/// The extension of the file `path` names, in ASCII lowercase.
pub fn extension(path: &str) -> (r: Option<String>)
    ensures
        match (r, spec_extension(path@)) {
            (Some(e), Some(s)) => e@ == s,
            (None, None) => true,
            _ => false,
        },
{
    let name = crate::shell::builtins::basename(path);
    let nv = chars_of(name.as_str());
    match find_last_char(nv.as_slice(), '.') {
        Some(i) => {
            proof {
                crate::shell::builtins::lemma_last_index(nv@, '.');
            }
            let ext = slice_vec(nv.as_slice(), i + 1, nv.len());
            assert(ext@ == nv@.skip(i + 1));
            let mut low: Vec<char> = Vec::new();
            let mut k: usize = 0;
            while k < ext.len()
                invariant
                    k <= ext.len(),
                    low@ == ext@.take(k as int).map_values(|c: char| ascii_lower(c)),
                decreases ext.len() - k,
            {
                let ghost before = low@;
                low.push(to_ascii_lower(ext[k]));
                assert(ext@.take(k + 1).map_values(|c: char| ascii_lower(c)) =~= before.push(
                    ascii_lower(ext@[k as int]),
                ));
                k += 1;
            }
            assert(ext@.take(ext.len() as int) == ext@);
            Some(string_of(low.as_slice()))
        },
        None => None,
    }
}

/// The image type an extension names, if any.
pub open spec fn image_type(ext: Seq<char>) -> Option<Seq<char>> {
    if ext == "png"@ {
        Some("image/png"@)
    } else if ext == "jpg"@ || ext == "jpeg"@ {
        Some("image/jpeg"@)
    } else if ext == "webp"@ {
        Some("image/webp"@)
    } else if ext == "gif"@ {
        Some("image/gif"@)
    } else if ext == "tif"@ || ext == "tiff"@ {
        Some("image/tiff"@)
    } else {
        None
    }
}

pub open spec fn spec_classify(path: Seq<char>, mime: Option<Seq<char>>, r: Input) -> bool {
    if mime is Some && has_prefix(mime->0, "image/"@) {
        r matches Input::Image(m) && m@ == mime->0
    } else if mime is Some && mime->0 == "application/pdf"@ {
        r is Pdf
    } else {
        match spec_extension(path) {
            Some(ext) => match image_type(ext) {
                Some(t) => r matches Input::Image(m) && m@ == t,
                None => if ext == "pdf"@ {
                    r is Pdf
                } else {
                    r is Unsupported
                },
            },
            None => r is Unsupported,
        }
    }
}

/// The last `c` in `s` is at `i` when `s[i]` is `c` and nothing after it is.
proof fn lemma_last_index_at(s: Seq<char>, c: char, i: int)
    requires
        0 <= i < s.len(),
        s[i] == c,
        forall|j: int| i < j < s.len() ==> s[j] != c,
    ensures
        last_index(s, c) == Some(i),
{
    crate::shell::builtins::lemma_last_index(s, c);
}

/// The extension of `dir + name + "." + ext` (a directory that is empty or
/// ends with `/`, a name without `/`, an extension without `/` or `.`) is
/// `ext` in ASCII lowercase.
pub proof fn lemma_extension_of(dir: Seq<char>, name: Seq<char>, ext: Seq<char>)
    requires
        dir.len() == 0 || dir.last() == '/',
        forall|k: int| 0 <= k < name.len() ==> name[k] != '/',
        forall|k: int| 0 <= k < ext.len() ==> ext[k] != '/' && ext[k] != '.',
    ensures
        spec_extension(dir + name + seq!['.'] + ext) == Some(ext.map_values(|c: char| ascii_lower(c))),
{
    let tail = name + seq!['.'] + ext;
    let path = dir + tail;
    assert(dir + name + seq!['.'] + ext =~= path);
    assert forall|k: int| 0 <= k < tail.len() implies tail[k] != '/' by {
        if k < name.len() {
            assert(tail[k] == name[k]);
        } else if k > name.len() {
            assert(tail[k] == ext[k - name.len() - 1]);
        }
    }
    if dir.len() == 0 {
        assert(path =~= tail);
        crate::shell::builtins::lemma_last_index(path, '/');
        if last_index(path, '/') is Some {
            let i = last_index(path, '/')->0;
            assert(path[i] == '/');
        }
        assert(spec_split_parent(path).1 == tail);
    } else {
        assert forall|j: int| dir.len() - 1 < j < path.len() implies path[j] != '/' by {
            assert(path[j] == tail[j - dir.len()]);
        }
        assert(path[dir.len() - 1] == '/');
        lemma_last_index_at(path, '/', dir.len() - 1);
        assert(path.skip(dir.len() as int) =~= tail);
    }
    assert forall|j: int| name.len() < j < tail.len() implies tail[j] != '.' by {
        assert(tail[j] == ext[j - name.len() - 1]);
    }
    lemma_last_index_at(tail, '.', name.len() as int);
    assert(tail.skip(name.len() + 1int) =~= ext);
}

/// What OCR reads, by the file's extension in any ASCII case when no MIME
/// type is given: png, jpg, jpeg, webp, gif, tif and tiff are images with
/// their MIME types, pdf is a PDF, and anything else is refused. A MIME
/// type that is an image type, or `application/pdf`, decides first.
pub proof fn lemma_documented_types_are_read(dir: Seq<char>, name: Seq<char>, ext: Seq<char>, r: Input)
    requires
        dir.len() == 0 || dir.last() == '/',
        forall|k: int| 0 <= k < name.len() ==> name[k] != '/',
        forall|k: int| 0 <= k < ext.len() ==> ext[k] != '/' && ext[k] != '.',
        spec_classify(dir + name + seq!['.'] + ext, None, r),
    ensures
        ({
            let e = ext.map_values(|c: char| ascii_lower(c));
            &&& e == "png"@ ==> (r matches Input::Image(m) && m@ == "image/png"@)
            &&& e == "jpg"@ || e == "jpeg"@ ==> (r matches Input::Image(m) && m@ == "image/jpeg"@)
            &&& e == "webp"@ ==> (r matches Input::Image(m) && m@ == "image/webp"@)
            &&& e == "gif"@ ==> (r matches Input::Image(m) && m@ == "image/gif"@)
            &&& e == "tif"@ || e == "tiff"@ ==> (r matches Input::Image(m) && m@ == "image/tiff"@)
            &&& e == "pdf"@ ==> r is Pdf
            &&& !(e == "png"@ || e == "jpg"@ || e == "jpeg"@ || e == "webp"@ || e == "gif"@ || e
                == "tif"@ || e == "tiff"@ || e == "pdf"@) ==> r is Unsupported
        }),
{
    lemma_extension_of(dir, name, ext);
    reveal_strlit("png");
    reveal_strlit("jpg");
    reveal_strlit("jpeg");
    reveal_strlit("webp");
    reveal_strlit("gif");
    reveal_strlit("tif");
    reveal_strlit("tiff");
    reveal_strlit("pdf");
    assert("png"@.len() == 3 && "jpg"@.len() == 3 && "gif"@.len() == 3 && "tif"@.len() == 3
        && "pdf"@.len() == 3 && "jpeg"@.len() == 4 && "webp"@.len() == 4 && "tiff"@.len() == 4);
    assert("png"@ != "jpg"@ && "png"@ != "gif"@ && "png"@ != "tif"@) by {
        assert("png"@[0] != "jpg"@[0] && "png"@[0] != "gif"@[0] && "png"@[0] != "tif"@[0]);
    }
    assert("png"@ != "pdf"@) by {
        assert("png"@[1] != "pdf"@[1]);
    }
    assert("jpg"@ != "gif"@ && "jpg"@ != "tif"@ && "jpg"@ != "pdf"@) by {
        assert("jpg"@[0] != "gif"@[0] && "jpg"@[0] != "tif"@[0] && "jpg"@[0] != "pdf"@[0]);
    }
    assert("gif"@ != "tif"@ && "gif"@ != "pdf"@ && "tif"@ != "pdf"@) by {
        assert("gif"@[0] != "tif"@[0] && "gif"@[0] != "pdf"@[0] && "tif"@[0] != "pdf"@[0]);
    }
    assert("jpeg"@ != "webp"@ && "jpeg"@ != "tiff"@ && "webp"@ != "tiff"@) by {
        assert("jpeg"@[0] != "webp"@[0] && "jpeg"@[0] != "tiff"@[0] && "webp"@[0] != "tiff"@[0]);
    }
}

/// A MIME type decides before the extension: an image type gives an image
/// of that type, `application/pdf` a PDF, whatever the path.
pub proof fn lemma_mime_decides_first(path: Seq<char>, mime: Seq<char>, r: Input)
    requires
        spec_classify(path, Some(mime), r),
    ensures
        has_prefix(mime, "image/"@) ==> (r matches Input::Image(m) && m@ == mime),
        mime == "application/pdf"@ ==> r is Pdf,
{
    reveal_strlit("image/");
    reveal_strlit("application/pdf");
    if mime == "application/pdf"@ {
        assert(!has_prefix(mime, "image/"@)) by {
            assert(mime.take(6)[0] != "image/"@[0]);
        }
    }
}

/// Classifies a file by its MIME type, then by its extension.
pub fn classify(path: &str, mime: Option<&str>) -> (r: Input)
    ensures
        spec_classify(
            path@,
            match mime {
                Some(m) => Some(m@),
                None => None,
            },
            r,
        ),
{
    match mime {
        Some(m) => {
            let mv = chars_of(m);
            let image = chars_of("image/");
            if starts_with(mv.as_slice(), image.as_slice()) {
                return Input::Image(m.to_owned());
            }
            if str_is("application/pdf", mv.as_slice()) {
                return Input::Pdf;
            }
        },
        None => {},
    }
    match extension(path) {
        Some(e) => {
            let ev = chars_of(e.as_str());
            if str_is("png", ev.as_slice()) {
                Input::Image("image/png".to_owned())
            } else if str_is("jpg", ev.as_slice()) || str_is("jpeg", ev.as_slice()) {
                Input::Image("image/jpeg".to_owned())
            } else if str_is("webp", ev.as_slice()) {
                Input::Image("image/webp".to_owned())
            } else if str_is("gif", ev.as_slice()) {
                Input::Image("image/gif".to_owned())
            } else if str_is("tif", ev.as_slice()) || str_is("tiff", ev.as_slice()) {
                Input::Image("image/tiff".to_owned())
            } else if str_is("pdf", ev.as_slice()) {
                Input::Pdf
            } else {
                Input::Unsupported
            }
        },
        None => Input::Unsupported,
    }
}

/// The file name of `path` without its extension; `document` when that
/// leaves nothing.
pub open spec fn spec_stem(path: Seq<char>) -> Seq<char> {
    let name = spec_split_parent(path).1;
    let base = match split_ext(name) {
        Some((b, _)) => b,
        None => name,
    };
    if base.len() == 0 {
        "document"@
    } else {
        base
    }
}

fn stem(path: &str) -> (r: String)
    ensures
        r@ == spec_stem(path@),
{
    let name = crate::shell::builtins::basename(path);
    let nv = chars_of(name.as_str());
    let base = match find_last_char(nv.as_slice(), '.') {
        Some(i) => {
            proof {
                crate::shell::builtins::lemma_last_index(nv@, '.');
            }
            slice_vec(nv.as_slice(), 0, i)
        },
        None => nv,
    };
    if base.len() == 0 {
        "document".to_owned()
    } else {
        string_of(base.as_slice())
    }
}

pub open spec fn spec_default_output_path(root: Seq<char>, input: Seq<char>) -> Seq<char> {
    trim_end_by(root, Strip::Exactly('/')) + "/ocr/"@ + spec_stem(input) + ".md"@
}

/// Where the transcript of `input` goes: `<root>/ocr/<stem>.md`.
pub fn default_output_path(writable_root: &str, input: &str) -> (r: String)
    ensures
        r@ == spec_default_output_path(writable_root@, input@),
{
    let rv = chars_of(writable_root);
    let root = crate::text::trim_end_chars(rv.as_slice(), '/');
    let mut s = string_of(root.as_slice());
    push_str(&mut s, "/ocr/");
    let st = stem(input);
    push_str(&mut s, st.as_str());
    push_str(&mut s, ".md");
    s
}

/// The directory of `path`, when it has a `/`.
pub fn parent_dir(path: &str) -> (r: Option<String>)
    ensures
        match (r, last_index(path@, '/')) {
            (Some(p), Some(i)) => p@ == path@.take(i),
            (None, None) => true,
            _ => false,
        },
{
    let v = chars_of(path);
    match find_last_char(v.as_slice(), '/') {
        Some(i) => {
            proof {
                crate::shell::builtins::lemma_last_index(v@, '/');
            }
            Some(string_of(slice_vec(v.as_slice(), 0, i).as_slice()))
        },
        None => None,
    }
}

/// Where the figures cropped for `output_path` go, next to it.
pub fn assets_dir_name(output_path: &str) -> (r: String)
    ensures
        r@ == spec_stem(output_path@) + "_assets"@,
{
    let mut s = stem(output_path);
    push_str(&mut s, "_assets");
    s
}

pub open spec fn spec_preview(markdown: Seq<char>) -> Seq<char> {
    let t = trim(markdown);
    if t.len() <= PREVIEW_CHARS {
        t
    } else {
        t.take(PREVIEW_CHARS as int) + "…"@
    }
}

/// The trimmed transcript, cut to the preview length with an ellipsis.
pub fn preview(markdown: &str) -> (r: String)
    ensures
        r@ == spec_preview(markdown@),
{
    let t = trimmed(chars_of(markdown).as_slice(), Strip::Whitespace);
    if t.len() <= PREVIEW_CHARS {
        return string_of(t.as_slice());
    }
    let mut s = string_of(slice_vec(t.as_slice(), 0, PREVIEW_CHARS).as_slice());
    push_str(&mut s, "…");
    s
}

/// The first line that is not blank, trimmed.
pub open spec fn first_nonblank(ls: Seq<Seq<char>>) -> Option<Seq<char>>
    decreases ls.len(),
{
    if ls.len() == 0 {
        None
    } else if trim(ls[0]).len() > 0 {
        Some(trim(ls[0]))
    } else {
        first_nonblank(ls.drop_first())
    }
}

pub open spec fn spec_first_line(text: Seq<char>) -> Seq<char> {
    match first_nonblank(lines(text)) {
        Some(l) => l,
        None => "unreadable PDF"@,
    }
}

/// The first non-blank line of a text layer, trimmed.
pub fn first_line(text: &str) -> (r: String)
    ensures
        r@ == spec_first_line(text@),
{
    let ls = lines_of(chars_of(text).as_slice());
    let ghost lv = crate::text::views(ls@);
    let mut i: usize = 0;
    assert(lv.skip(0) == lv);
    while i < ls.len()
        invariant
            i <= ls.len(),
            lv == crate::text::views(ls@),
            lv == lines(text@),
            first_nonblank(lv) == first_nonblank(lv.skip(i as int)),
        decreases ls.len() - i,
    {
        let t = trimmed(ls[i].as_slice(), Strip::Whitespace);
        assert(lv.skip(i as int)[0] == ls@[i as int]@);
        assert(lv.skip(i as int).len() > 0);
        if t.len() > 0 {
            assert(first_nonblank(lv.skip(i as int)) == Some(t@));
            return string_of(t.as_slice());
        }
        assert(lv.skip(i as int).drop_first() == lv.skip(i + 1));
        i += 1;
    }
    "unreadable PDF".to_owned()
}

// ---------------------------------------------------------------------------
// Script templates.
// ---------------------------------------------------------------------------

/// A lowercase hexadecimal digit of `n < 16`.
pub open spec fn lower_hex_digit(n: u32) -> char {
    if n < 10 {
        (48 + n) as char
    } else {
        (87 + n) as char
    }
}

/// How JSON writes one character inside a string literal: `"` and `\`
/// behind a backslash, the short escapes for backspace, tab, line feed, form
/// feed and carriage return, other control characters below U+0020 as
/// `\u00XX`, everything else as itself.
pub open spec fn json_escape_char(c: char) -> Seq<char> {
    let n = c as u32;
    if c == '"' {
        seq!['\\', '"']
    } else if c == '\\' {
        seq!['\\', '\\']
    } else if n == 8 {
        seq!['\\', 'b']
    } else if n == 9 {
        seq!['\\', 't']
    } else if n == 10 {
        seq!['\\', 'n']
    } else if n == 12 {
        seq!['\\', 'f']
    } else if n == 13 {
        seq!['\\', 'r']
    } else if n < 32 {
        seq!['\\', 'u', '0', '0', lower_hex_digit(n / 16), lower_hex_digit(n % 16)]
    } else {
        seq![c]
    }
}

/// The characters of `s`, each written as in a JSON string literal.
pub open spec fn json_escaped(s: Seq<char>) -> Seq<char>
    decreases s.len(),
{
    if s.len() == 0 {
        Seq::empty()
    } else {
        json_escaped(s.drop_last()) + json_escape_char(s.last())
    }
}

/// The JSON string literal of `s`: its escaped characters between quotes.
pub open spec fn json_string_literal(s: Seq<char>) -> Seq<char> {
    seq!['"'] + json_escaped(s) + seq!['"']
}

/// Calls `serde_json::to_string` on a string: the JSON string literal, with
/// `"`, `\` and control characters escaped by the table in serde_json's
/// serializer. It writes into a `Vec`, which cannot fail, so it always
/// returns `Some`.
#[verifier::external_body]
fn json_quote(s: &str) -> (r: Option<String>)
    ensures
        r is Some,
        r matches Some(j) ==> j@ == json_string_literal(s@),
{
    serde_json::to_string(s).ok()
}

/// The decimal digits of `n`.
pub open spec fn decimal_text(n: nat) -> Seq<char>
    decreases n,
{
    if n < 10 {
        seq![(48 + n) as char]
    } else {
        decimal_text(n / 10).push((48 + n % 10) as char)
    }
}

/// `n` in decimal, as `usize::to_string` writes it.
pub fn decimal_string(n: usize) -> (r: String)
    ensures
        r@ == decimal_text(n as nat),
    decreases n,
{
    if n < 10 {
        let mut s = String::new();
        crate::text::push_char(&mut s, char_of_digit(n));
        assert(s@ =~= seq![(48 + n) as char]);
        s
    } else {
        let mut s = decimal_string(n / 10);
        crate::text::push_char(&mut s, char_of_digit(n % 10));
        s
    }
}

fn char_of_digit(d: usize) -> (c: char)
    requires
        d < 10,
    ensures
        c == (48 + d) as char,
{
    ((48 + d) as u8) as char
}

/// The PDF script: the quoted path placeholder replaced by the path's JSON
/// string literal, and the page-limit placeholder by `MAX_PAGES`.
pub open spec fn spec_pdf_script(template: Seq<char>, path: Seq<char>) -> Seq<char> {
    replace_all(
        replace_all(template, "\"__OCR_PATH__\""@, json_string_literal(path)),
        "__OCR_MAX_PAGES__"@,
        decimal_text(MAX_PAGES as nat),
    )
}

/// Fills the PDF preprocessing script: the quoted placeholder becomes the
/// path as a JSON (and Python) string literal, and the page limit is set.
pub fn pdf_script(template: &str, path: &str) -> (r: String)
    ensures
        r@ == spec_pdf_script(template@, path@),
{
    let quoted = json_quote(path);
    let literal = match quoted {
        Some(j) => j,
        None => "\"\"".to_owned(),
    };
    let t = chars_of(template);
    proof {
        reveal_strlit("\"__OCR_PATH__\"");
        reveal_strlit("__OCR_MAX_PAGES__");
    }
    let a = replace(t.as_slice(), "\"__OCR_PATH__\"", literal.as_str());
    let pages = decimal_string(MAX_PAGES);
    let b = replace(a.as_slice(), "__OCR_MAX_PAGES__", pages.as_str());
    let r = string_of(b.as_slice());
    r
}

} // verus!
