//! Message shaping for Telegram: splitting long texts into readable chunks,
//! topic ids, file names and multipart bodies.
use vstd::prelude::*;

use crate::text::{blank_in, chars_of, is_control, is_ctrl, is_ws, lemma_trim_bounds, slice_vec, string_of, trim, trim_start_by, trimmed, Strip};

verus! {

broadcast use vstd::string::group_string_axioms;

/// Telegram's limit for rich (Markdown) messages, in characters.
pub const TELEGRAM_RICH_MESSAGE_LIMIT: usize = 32_768;

// ---------------------------------------------------------------------------
// Splitting messages.
// ---------------------------------------------------------------------------

/// The last index in `[start, end)` holding `c`.
pub open spec fn last_at(cs: Seq<char>, start: int, end: int, c: char) -> Option<int>
    decreases end - start,
{
    if end <= start {
        None
    } else if cs[end - 1] == c {
        Some(end - 1)
    } else {
        last_at(cs, start, end - 1, c)
    }
}

pub proof fn lemma_last_at(cs: Seq<char>, start: int, end: int, c: char)
    ensures
        last_at(cs, start, end, c) matches Some(i) ==> start <= i < end && cs[i] == c,
        last_at(cs, start, end, c) is None ==> forall|j: int| start <= j < end ==> cs[j] != c,
    decreases end - start,
{
    if end > start && cs[end - 1] != c {
        lemma_last_at(cs, start, end - 1, c);
    }
}

/// Where to break a chunk that starts at `start` and may not reach `end`:
/// at the last newline, else at the last space (both dropped), else hard at
/// `end`.
pub open spec fn spec_break(cs: Seq<char>, start: int, end: int) -> (int, bool) {
    match last_at(cs, start, end, '\n') {
        Some(i) => (i, true),
        None => match last_at(cs, start, end, ' ') {
            Some(i) => (i, true),
            None => (end, false),
        },
    }
}

pub proof fn lemma_break(cs: Seq<char>, start: int, end: int)
    requires
        start < end,
    ensures
        start <= spec_break(cs, start, end).0 <= end,
        spec_break(cs, start, end).1 ==> spec_break(cs, start, end).0 < end && is_ws(
            cs[spec_break(cs, start, end).0],
        ),
        !spec_break(cs, start, end).1 ==> spec_break(cs, start, end).0 == end,
{
    lemma_last_at(cs, start, end, '\n');
    lemma_last_at(cs, start, end, ' ');
}

/// `last_at` finds the last occurrence: nothing after it holds `c`.
proof fn lemma_last_at_is_last(cs: Seq<char>, start: int, end: int, c: char)
    ensures
        last_at(cs, start, end, c) matches Some(i) ==> forall|j: int| i < j < end ==> cs[j] != c,
    decreases end - start,
{
    if end > start && cs[end - 1] != c {
        lemma_last_at_is_last(cs, start, end - 1, c);
    }
}

/// Where a chunk breaks: when the window `[start, end)` holds a newline,
/// at its last newline, which is dropped; when it holds no newline but a
/// space, at its last space, which is dropped; otherwise hard at `end`.
pub proof fn lemma_break_prefers_newlines(cs: Seq<char>, start: int, end: int)
    requires
        0 <= start < end <= cs.len(),
    ensures
        ({
            let (b, drop) = spec_break(cs, start, end);
            &&& (exists|j: int| start <= j < end && cs[j] == '\n') ==> {
                &&& drop
                &&& start <= b < end
                &&& cs[b] == '\n'
                &&& forall|j: int| b < j < end ==> cs[j] != '\n'
            }
            &&& (!exists|j: int| start <= j < end && cs[j] == '\n') && (exists|j: int|
                start <= j < end && cs[j] == ' ') ==> {
                &&& drop
                &&& start <= b < end
                &&& cs[b] == ' '
                &&& forall|j: int| b < j < end ==> cs[j] != ' '
            }
            &&& (!exists|j: int| start <= j < end && (cs[j] == '\n' || cs[j] == ' ')) ==> b == end
                && !drop
        }),
{
    lemma_last_at(cs, start, end, '\n');
    lemma_last_at(cs, start, end, ' ');
    lemma_last_at_is_last(cs, start, end, '\n');
    lemma_last_at_is_last(cs, start, end, ' ');
    if exists|j: int| start <= j < end && cs[j] == '\n' {
        let j = choose|j: int| start <= j < end && cs[j] == '\n';
        assert(last_at(cs, start, end, '\n') is Some);
    }
    if exists|j: int| start <= j < end && cs[j] == ' ' {
        let j = choose|j: int| start <= j < end && cs[j] == ' ';
        assert(last_at(cs, start, end, ' ') is Some);
    }
}

/// A text longer than the limit from `start` on loses its first chunk:
/// the characters from `start` up to where the window of `limit`
/// characters breaks; the next chunk starts after the break, past the
/// dropped newline or space.
pub proof fn lemma_first_chunk(cs: Seq<char>, start: int, limit: int)
    requires
        limit > 0,
        0 <= start,
        start + limit < cs.len(),
    ensures
        ({
            let (b, drop) = spec_break(cs, start, start + limit);
            &&& raw_chunks(cs, start, limit).len() > 0
            &&& raw_chunks(cs, start, limit)[0] == cs.subrange(start, b)
            &&& raw_chunks(cs, start, limit).drop_first() == raw_chunks(cs, if drop { b + 1 } else { b }, limit)
        }),
{
    let (b, drop) = spec_break(cs, start, start + limit);
    let next = if drop { b + 1 } else { b };
    assert(raw_chunks(cs, start, limit) == seq![cs.subrange(start, b)] + raw_chunks(cs, next, limit));
    assert((seq![cs.subrange(start, b)] + raw_chunks(cs, next, limit)).drop_first() =~= raw_chunks(cs, next, limit));
}

/// The chunks cut from `cs[start..]`, before trimming.
pub open spec fn raw_chunks(cs: Seq<char>, start: int, limit: int) -> Seq<Seq<char>>
    decreases cs.len() - start,
{
    if limit <= 0 || start < 0 || start >= cs.len() {
        Seq::empty()
    } else if cs.len() - start <= limit {
        seq![cs.subrange(start, cs.len() as int)]
    } else {
        let (at, drop) = spec_break(cs, start, start + limit);
        proof {
            lemma_break(cs, start, start + limit);
        }
        seq![cs.subrange(start, at)] + raw_chunks(cs, if drop { at + 1 } else { at }, limit)
    }
}

/// The trimmed parts that are not empty, in order.
pub open spec fn nonblank_trimmed(parts: Seq<Seq<char>>) -> Seq<Seq<char>>
    decreases parts.len(),
{
    if parts.len() == 0 {
        Seq::empty()
    } else if trim(parts[0]).len() > 0 {
        seq![trim(parts[0])] + nonblank_trimmed(parts.drop_first())
    } else {
        nonblank_trimmed(parts.drop_first())
    }
}

/// The chunks `split_message` sends.
pub open spec fn spec_split_message(text: Seq<char>, limit: int) -> Seq<Seq<char>> {
    if text.len() == 0 {
        Seq::empty()
    } else if limit == 0 || text.len() <= limit {
        seq![text]
    } else {
        nonblank_trimmed(raw_chunks(text, 0, limit))
    }
}

/// Where to break the chunk starting at `start` that may not reach
/// `window_end`; the flag says whether the character there is dropped.
pub fn preferred_break(chars: &[char], start: usize, window_end: usize) -> (r: (usize, bool))
    requires
        start < window_end <= chars.len(),
    ensures
        (r.0 as int, r.1) == spec_break(chars@, start as int, window_end as int),
{
    let mut i = window_end;
    while i > start
        invariant
            start <= i <= window_end <= chars.len(),
            last_at(chars@, start as int, window_end as int, '\n') == last_at(
                chars@,
                start as int,
                i as int,
                '\n',
            ),
        decreases i - start,
    {
        if chars[i - 1] == '\n' {
            return (i - 1, true);
        }
        i -= 1;
    }
    let mut j = window_end;
    while j > start
        invariant
            start <= j <= window_end <= chars.len(),
            last_at(chars@, start as int, window_end as int, '\n') is None,
            last_at(chars@, start as int, window_end as int, ' ') == last_at(
                chars@,
                start as int,
                j as int,
                ' ',
            ),
        decreases j - start,
    {
        if chars[j - 1] == ' ' {
            return (j - 1, true);
        }
        j -= 1;
    }
    (window_end, false)
}

/// Splits `text` into chunks of at most `limit` characters, preferring to
/// break on a newline, then on a space, so that each message stays readable;
/// a run with no break point is cut hard. Chunks are trimmed and empty ones
/// dropped, so an empty text gives no chunk. A text that fits, or a `limit`
/// of 0, is sent whole.
pub fn split_message(text: &str, limit: usize) -> (r: Vec<String>)
    ensures
        r@.map_values(|s: String| s@) == spec_split_message(text@, limit as int),
{
    let cs = chars_of(text);
    if cs.len() == 0 {
        let none: Vec<String> = Vec::new();
        assert(none@.map_values(|s: String| s@) =~= Seq::<Seq<char>>::empty());
        return none;
    }
    if limit == 0 || cs.len() <= limit {
        let mut one: Vec<String> = Vec::new();
        one.push(text.to_owned());
        assert(one@.map_values(|s: String| s@) =~= seq![text@]);
        return one;
    }
    let ghost all = raw_chunks(cs@, 0, limit as int);
    let mut out: Vec<String> = Vec::new();
    let mut start: usize = 0;
    while start < cs.len()
        invariant
            0 < limit < cs.len(),
            cs@ == text@,
            start <= cs.len(),
            all == raw_chunks(cs@, 0, limit as int),
            out@.map_values(|s: String| s@) + nonblank_trimmed(
                raw_chunks(cs@, start as int, limit as int),
            ) == nonblank_trimmed(all),
        decreases cs.len() - start,
    {
        let ghost before = out@.map_values(|s: String| s@);
        let ghost here = raw_chunks(cs@, start as int, limit as int);
        let (end, next) = if cs.len() - start <= limit {
            (cs.len(), cs.len())
        } else {
            let (at, drop) = preferred_break(cs.as_slice(), start, start + limit);
            proof {
                lemma_break(cs@, start as int, start + limit);
            }
            (
                at,
                if drop {
                    at + 1
                } else {
                    at
                },
            )
        };
        let ghost chunk = cs@.subrange(start as int, end as int);
        assert(here == seq![chunk] + raw_chunks(cs@, next as int, limit as int)) by {
            if cs.len() - start <= limit {
                assert(raw_chunks(cs@, next as int, limit as int) =~= Seq::<Seq<char>>::empty());
                assert(seq![chunk] + Seq::<Seq<char>>::empty() =~= seq![chunk]);
            }
        }
        assert(here[0] == chunk);
        assert(here.drop_first() =~= raw_chunks(cs@, next as int, limit as int));
        let piece = slice_vec(cs.as_slice(), start, end);
        let t = trimmed(piece.as_slice(), Strip::Whitespace);
        if t.len() > 0 {
            out.push(string_of(t.as_slice()));
            assert(out@.map_values(|s: String| s@) =~= before.push(trim(chunk)));
            assert(before.push(trim(chunk)) + nonblank_trimmed(
                raw_chunks(cs@, next as int, limit as int),
            ) =~= before + (seq![trim(chunk)] + nonblank_trimmed(
                raw_chunks(cs@, next as int, limit as int),
            )));
        }
        start = next;
    }
    assert(raw_chunks(cs@, start as int, limit as int) =~= Seq::<Seq<char>>::empty());
    assert(out@.map_values(|s: String| s@) + Seq::<Seq<char>>::empty() =~= out@.map_values(
        |s: String| s@,
    ));
    out
}

/// Every raw chunk has at most `limit` characters.
proof fn lemma_raw_chunks_bounded(cs: Seq<char>, start: int, limit: int)
    requires
        limit > 0,
    ensures
        forall|i: int|
            0 <= i < raw_chunks(cs, start, limit).len() ==> #[trigger] raw_chunks(
                cs,
                start,
                limit,
            )[i].len() <= limit,
    decreases cs.len() - start,
{
    if start >= 0 && start < cs.len() && cs.len() - start > limit {
        lemma_break(cs, start, start + limit);
        let (at, drop) = spec_break(cs, start, start + limit);
        let next = if drop {
            at + 1
        } else {
            at
        };
        lemma_raw_chunks_bounded(cs, next, limit);
        let rest = raw_chunks(cs, next, limit);
        assert forall|i: int|
            0 <= i < raw_chunks(cs, start, limit).len() implies #[trigger] raw_chunks(
            cs,
            start,
            limit,
        )[i].len() <= limit by {
            if i > 0 {
                assert(raw_chunks(cs, start, limit)[i] == rest[i - 1]);
            }
        }
    }
}

/// Trimming keeps what lies between the stripped ends.
proof fn lemma_nonblank_bounded(parts: Seq<Seq<char>>, limit: int)
    requires
        forall|i: int| 0 <= i < parts.len() ==> #[trigger] parts[i].len() <= limit,
    ensures
        forall|i: int|
            0 <= i < nonblank_trimmed(parts).len() ==> #[trigger] nonblank_trimmed(parts)[i].len()
                <= limit,
        forall|i: int|
            0 <= i < nonblank_trimmed(parts).len() ==> #[trigger] nonblank_trimmed(parts)[i].len()
                > 0,
    decreases parts.len(),
{
    if parts.len() > 0 {
        let rest = parts.drop_first();
        assert forall|i: int| 0 <= i < rest.len() implies #[trigger] rest[i].len() <= limit by {
            assert(rest[i] == parts[i + 1]);
        }
        lemma_nonblank_bounded(rest, limit);
        lemma_trim_bounds(parts[0], Strip::Whitespace);
        let n = nonblank_trimmed(parts);
        let r = nonblank_trimmed(rest);
        if trim(parts[0]).len() > 0 {
            assert forall|i: int| 0 <= i < n.len() implies #[trigger] n[i].len() <= limit && n[i].len()
                > 0 by {
                if i > 0 {
                    assert(n[i] == r[i - 1]);
                }
            }
        }
    }
}

/// A non-whitespace character of `cs[start..]` survives into some chunk.
proof fn lemma_content_survives(cs: Seq<char>, start: int, limit: int, k: int)
    requires
        limit > 0,
        0 <= start <= k < cs.len(),
        !is_ws(cs[k]),
    ensures
        nonblank_trimmed(raw_chunks(cs, start, limit)).len() > 0,
    decreases cs.len() - start,
{
    let raw = raw_chunks(cs, start, limit);
    if cs.len() - start <= limit {
        let chunk = cs.subrange(start, cs.len() as int);
        assert(raw[0] == chunk);
        assert(!blank_in(chunk)) by {
            assert(chunk[k - start] == cs[k]);
        }
        lemma_trim_bounds(chunk, Strip::Whitespace);
    } else {
        lemma_break(cs, start, start + limit);
        let (at, drop) = spec_break(cs, start, start + limit);
        let next = if drop {
            at + 1
        } else {
            at
        };
        let chunk = cs.subrange(start, at);
        assert(raw[0] == chunk);
        assert(raw.drop_first() =~= raw_chunks(cs, next, limit));
        if k < at {
            assert(!blank_in(chunk)) by {
                assert(chunk[k - start] == cs[k]);
            }
            lemma_trim_bounds(chunk, Strip::Whitespace);
        } else {
            lemma_content_survives(cs, next, limit, k);
        }
    }
}

/// Each chunk has at most `limit` characters and none is empty, and the
/// chunks run out only when the text has nothing but whitespace.
pub proof fn lemma_split_message_chunks(text: Seq<char>, limit: int)
    requires
        limit > 0,
    ensures
        forall|i: int|
            0 <= i < spec_split_message(text, limit).len() ==> #[trigger] spec_split_message(
                text,
                limit,
            )[i].len() <= limit,
        forall|i: int|
            0 <= i < spec_split_message(text, limit).len() ==> #[trigger] spec_split_message(
                text,
                limit,
            )[i].len() > 0,
        spec_split_message(text, limit).len() == 0 ==> blank_in(text),
{
    if text.len() > limit {
        lemma_raw_chunks_bounded(text, 0, limit);
        lemma_nonblank_bounded(raw_chunks(text, 0, limit), limit);
        if !blank_in(text) {
            let k = choose|k: int| 0 <= k < text.len() && !is_ws(#[trigger] text[k]);
            lemma_content_survives(text, 0, limit, k);
        }
    }
}

proof fn lemma_trim_start_first(s: Seq<char>)
    ensures
        trim_start_by(s, Strip::Whitespace).len() > 0 ==> !is_ws(trim_start_by(s, Strip::Whitespace)[0]),
    decreases s.len(),
{
    if s.len() > 0 && is_ws(s[0]) {
        lemma_trim_start_first(s.drop_first());
    }
}

/// A trimmed text that is not empty starts and ends with a character that
/// is not whitespace.
proof fn lemma_trimmed_ends(s: Seq<char>)
    ensures
        trim(s).len() > 0 ==> !is_ws(trim(s)[0]) && !is_ws(trim(s)[trim(s).len() - 1]),
{
    let t = trim_start_by(s, Strip::Whitespace);
    lemma_trim_start_first(s);
    let m = crate::text::lemma_trim_end(t, Strip::Whitespace);
    if m > 0 {
        assert(trim(s)[0] == t[0]);
        assert(trim(s)[m - 1] == t[m - 1]);
    }
}

proof fn lemma_nonblank_trimmed_ends(parts: Seq<Seq<char>>)
    ensures
        forall|i: int|
            0 <= i < nonblank_trimmed(parts).len() ==> {
                let c = #[trigger] nonblank_trimmed(parts)[i];
                c.len() > 0 && !is_ws(c[0]) && !is_ws(c[c.len() - 1])
            },
    decreases parts.len(),
{
    if parts.len() > 0 {
        let rest = parts.drop_first();
        lemma_nonblank_trimmed_ends(rest);
        lemma_trimmed_ends(parts[0]);
        let n = nonblank_trimmed(parts);
        let r = nonblank_trimmed(rest);
        if trim(parts[0]).len() > 0 {
            assert forall|i: int| 0 <= i < n.len() implies {
                let c = #[trigger] n[i];
                c.len() > 0 && !is_ws(c[0]) && !is_ws(c[c.len() - 1])
            } by {
                if i > 0 {
                    assert(n[i] == r[i - 1]);
                }
            }
        }
    }
}

/// The chunks of a text longer than the limit are trimmed: none is empty,
/// and none starts or ends with whitespace.
pub proof fn lemma_long_text_chunks_are_trimmed(text: Seq<char>, limit: int)
    requires
        0 < limit < text.len(),
    ensures
        forall|i: int|
            0 <= i < spec_split_message(text, limit).len() ==> {
                let c = #[trigger] spec_split_message(text, limit)[i];
                c.len() > 0 && !is_ws(c[0]) && !is_ws(c[c.len() - 1])
            },
{
    lemma_nonblank_trimmed_ends(raw_chunks(text, 0, limit));
}

// ---------------------------------------------------------------------------
// Topics and file names.
// ---------------------------------------------------------------------------

/// Splits a stored topic id into Telegram's `message_thread_id` (forum
/// topics, positive) and `direct_messages_topic_id` (direct-message topics,
/// stored negative).
pub fn topic_fields(topic_id: Option<i64>) -> (r: (Option<i64>, Option<i64>))
    requires
        topic_id != Some(i64::MIN),
    ensures
        r == (match topic_id {
            Some(id) => if id > 0 {
                (Some(id), None)
            } else if id < 0 {
                (None, Some(-id as i64))
            } else {
                (None, None)
            },
            None => (None, None),
        }),
{
    match topic_id {
        Some(id) => if id > 0 {
            (Some(id), None)
        } else if id < 0 {
            (None, Some(-id))
        } else {
            (None, None)
        },
        None => (None, None),
    }
}

/// The part of `s` after its last `/` or `\`.
pub open spec fn after_last_sep(s: Seq<char>) -> Seq<char>
    decreases s.len(),
{
    if s.len() == 0 {
        s
    } else if s.last() == '/' || s.last() == '\\' {
        Seq::empty()
    } else {
        after_last_sep(s.drop_last()).push(s.last())
    }
}

/// Characters kept in a file name: not control characters, not `"`.
pub open spec fn name_keeps(c: char) -> bool {
    !is_ctrl(c) && c != '"'
}

pub open spec fn filter_name(s: Seq<char>) -> Seq<char>
    decreases s.len(),
{
    if s.len() == 0 {
        s
    } else if name_keeps(s.last()) {
        filter_name(s.drop_last()).push(s.last())
    } else {
        filter_name(s.drop_last())
    }
}

pub open spec fn spec_file_name_from_path(path: Seq<char>) -> Seq<char> {
    let name = trim(filter_name(after_last_sep(path)));
    if name.len() == 0 {
        "file"@
    } else {
        name
    }
}

/// The name a document is sent under: the last path component, without
/// control characters or quotes, trimmed; `file` when nothing is left.
pub fn file_name_from_path(path: &str) -> (r: String)
    ensures
        r@ == spec_file_name_from_path(path@),
{
    let cs = chars_of(path);
    let mut i = cs.len();
    assert(cs@.take(i as int) == cs@);
    assert(after_last_sep(cs@) =~= after_last_sep(cs@.take(i as int)) + cs@.skip(i as int));
    while i > 0 && cs[i - 1] != '/' && cs[i - 1] != '\\'
        invariant
            i <= cs.len(),
            after_last_sep(cs@) == after_last_sep(cs@.take(i as int)) + cs@.skip(i as int),
        decreases i,
    {
        let ghost t = cs@.take(i as int);
        assert(t.drop_last() == cs@.take(i - 1));
        assert(cs@.skip(i - 1) == seq![cs@[i - 1]] + cs@.skip(i as int));
        assert(after_last_sep(t) == after_last_sep(t.drop_last()).push(t.last()));
        assert(after_last_sep(cs@.take(i - 1)) + cs@.skip(i - 1) =~= after_last_sep(
            cs@.take(i - 1),
        ).push(cs@[i - 1]) + cs@.skip(i as int));
        i -= 1;
    }
    proof {
        let t = cs@.take(i as int);
        if i == 0 {
            assert(t.len() == 0);
        } else {
            assert(t.last() == cs@[i - 1]);
        }
        assert(after_last_sep(t) =~= Seq::<char>::empty());
        assert(after_last_sep(cs@) =~= cs@.skip(i as int));
    }
    let mut kept: Vec<char> = Vec::new();
    let mut j = i;
    while j < cs.len()
        invariant
            i <= j <= cs.len(),
            kept@ == filter_name(cs@.subrange(i as int, j as int)),
        decreases cs.len() - j,
    {
        let c = cs[j];
        assert(cs@.subrange(i as int, j + 1).drop_last() == cs@.subrange(i as int, j as int));
        if !is_control(c) && c != '"' {
            kept.push(c);
        }
        j += 1;
    }
    assert(cs@.subrange(i as int, cs.len() as int) == cs@.skip(i as int));
    let name = trimmed(kept.as_slice(), Strip::Whitespace);
    if name.len() == 0 {
        "file".to_owned()
    } else {
        string_of(name.as_slice())
    }
}

// ---------------------------------------------------------------------------
// Multipart bodies.
// ---------------------------------------------------------------------------

/// UTF-8 bytes of a string's characters.
pub open spec fn utf8(s: Seq<char>) -> Seq<u8> {
    vstd::utf8::encode_utf8(s)
}

/// One `name=value` form field.
pub open spec fn field_part(boundary: Seq<char>, name: Seq<char>, value: Seq<char>) -> Seq<u8> {
    utf8("--"@ + boundary + "\r\n"@) + utf8(
        "Content-Disposition: form-data; name=\""@ + name + "\"\r\n\r\n"@,
    ) + utf8(value) + utf8("\r\n"@)
}

pub open spec fn fields_part(boundary: Seq<char>, fields: Seq<(Seq<char>, Seq<char>)>) -> Seq<u8>
    decreases fields.len(),
{
    if fields.len() == 0 {
        Seq::empty()
    } else {
        fields_part(boundary, fields.drop_last()) + field_part(
            boundary,
            fields.last().0,
            fields.last().1,
        )
    }
}

/// A `multipart/form-data` body: the fields, then one file, then the closing
/// boundary.
pub open spec fn spec_multipart_body(
    boundary: Seq<char>,
    fields: Seq<(Seq<char>, Seq<char>)>,
    file_field: Seq<char>,
    file_name: Seq<char>,
    mime_type: Seq<char>,
    data: Seq<u8>,
) -> Seq<u8> {
    fields_part(boundary, fields) + utf8("--"@ + boundary + "\r\n"@) + utf8(
        "Content-Disposition: form-data; name=\""@ + file_field + "\"; filename=\""@ + file_name
            + "\"\r\n"@,
    ) + utf8("Content-Type: "@ + mime_type + "\r\n\r\n"@) + data + utf8("\r\n"@) + utf8(
        "--"@ + boundary + "--\r\n"@,
    )
}

pub open spec fn field_views(fields: Seq<(&str, String)>) -> Seq<(Seq<char>, Seq<char>)> {
    fields.map_values(|f: (&str, String)| (f.0@, f.1@))
}

/// Appends `b` to `body`.
fn push_bytes(body: &mut Vec<u8>, b: &[u8])
    ensures
        final(body)@ == old(body)@ + b@,
{
    let mut i: usize = 0;
    while i < b.len()
        invariant
            i <= b.len(),
            body@ == old(body)@ + b@.take(i as int),
        decreases b.len() - i,
    {
        body.push(b[i]);
        i += 1;
        assert(b@.take(i as int) == b@.take(i - 1).push(b@[i - 1]));
    }
    assert(b@.take(b.len() as int) == b@);
}

/// Appends the UTF-8 bytes of `parts`, concatenated.
fn push_text(body: &mut Vec<u8>, parts: &[&str])
    ensures
        final(body)@ == old(body)@ + utf8(concat_all(parts@)),
{
    let mut s = String::new();
    let mut i: usize = 0;
    while i < parts.len()
        invariant
            i <= parts.len(),
            s@ == concat_all(parts@.take(i as int)),
        decreases parts.len() - i,
    {
        crate::skills::push_str(&mut s, parts[i]);
        i += 1;
        assert(parts@.take(i as int).drop_last() == parts@.take(i - 1));
    }
    assert(parts@.take(parts.len() as int) == parts@);
    push_bytes(body, s.as_str().as_bytes());
}

/// The strings of `parts`, one after another.
pub open spec fn concat_all(parts: Seq<&str>) -> Seq<char>
    decreases parts.len(),
{
    if parts.len() == 0 {
        Seq::empty()
    } else {
        concat_all(parts.drop_last()) + parts.last()@
    }
}

/// Builds a `multipart/form-data` body with text fields and one file.
pub fn multipart_body(
    boundary: &str,
    fields: &[(&str, String)],
    file_field: &str,
    file_name: &str,
    mime_type: &str,
    data: &[u8],
) -> (r: Vec<u8>)
    ensures
        r@ == spec_multipart_body(
            boundary@,
            field_views(fields@),
            file_field@,
            file_name@,
            mime_type@,
            data@,
        ),
{
    let mut body: Vec<u8> = Vec::new();
    let mut i: usize = 0;
    while i < fields.len()
        invariant
            i <= fields.len(),
            body@ == fields_part(boundary@, field_views(fields@).take(i as int)),
        decreases fields.len() - i,
    {
        let (name, value) = &fields[i];
        let ghost before = body@;
        push_text(&mut body, &["--", boundary, "\r\n"]);
        push_text(&mut body, &["Content-Disposition: form-data; name=\"", *name, "\"\r\n\r\n"]);
        push_bytes(&mut body, value.as_str().as_bytes());
        push_text(&mut body, &["\r\n"]);
        proof {
            let fv = field_views(fields@);
            assert(fv.take(i + 1).drop_last() =~= fv.take(i as int));
            assert(fv.take(i + 1).last() == (name@, value@));
            reveal_with_fuel(concat_all, 4);
            assert(body@ =~= before + field_part(boundary@, name@, value@));
        }
        i += 1;
    }
    assert(field_views(fields@).take(fields.len() as int) =~= field_views(fields@));
    let ghost fp = body@;
    push_text(&mut body, &["--", boundary, "\r\n"]);
    push_text(
        &mut body,
        &[
            "Content-Disposition: form-data; name=\"",
            file_field,
            "\"; filename=\"",
            file_name,
            "\"\r\n",
        ],
    );
    push_text(&mut body, &["Content-Type: ", mime_type, "\r\n\r\n"]);
    push_bytes(&mut body, data);
    push_text(&mut body, &["\r\n"]);
    push_text(&mut body, &["--", boundary, "--\r\n"]);
    proof {
        reveal_with_fuel(concat_all, 6);
    }
    body
}

} // verus!
