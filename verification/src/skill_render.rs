//! Rendering a skill for the agent: path placeholders are substituted, then
//! the text is cut into literal parts and dynamic shell commands (fenced
//! ```` ```! ```` blocks and inline ``!`cmd` `` forms), whose output is
//! spliced in within fixed size limits.
use vstd::prelude::*;

use crate::skills::{line_end, lemma_line_end, push_str, Skill, SkillOrigin, SYSTEM_SKILLS_HOME, USER_SKILLS_HOME};
use crate::text::{chars_of, has_prefix, is_whitespace, is_ws, slice_vec, str_is, string_of, trim, trim_end_by, trimmed, utf8_len, char_len_utf8, lemma_trim_bounds, Strip, blank_in};
use crate::vfs::mounted::{AGENT_HOME, USER_HOME};

verus! {

broadcast use vstd::string::group_string_axioms;

/// Largest stdout a command may contribute, in bytes.
pub const MAX_COMMAND_OUTPUT: usize = 262144;
/// Largest rendered skill, in bytes.
pub const MAX_RENDERED_SKILL: usize = 1048576;
/// Largest stderr kept in an error report, in bytes.
pub const MAX_ERROR_OUTPUT: usize = 8192;

/// A literal part of a skill, or a command whose output replaces it.
#[derive(Clone, Debug)]
pub enum Segment {
    Text(String),
    Command(String),
}

pub enum SegmentV {
    Text(Seq<char>),
    Command(Seq<char>),
}

pub open spec fn segment_view(s: Segment) -> SegmentV {
    match s {
        Segment::Text(t) => SegmentV::Text(t@),
        Segment::Command(c) => SegmentV::Command(c@),
    }
}

pub open spec fn segment_views(v: Seq<Segment>) -> Seq<SegmentV> {
    v.map_values(|s: Segment| segment_view(s))
}

/// Why rendering a skill failed.
#[derive(Debug)]
pub enum RenderError {
    InvalidSyntax(String),
    Command { command: String, reason: &'static str, exit_status: Option<i32>, stderr: String },
    TooLarge,
}

// ---------------------------------------------------------------------------
// Dynamic command syntax.
// ---------------------------------------------------------------------------

/// `i` starts a line.
pub open spec fn line_start(cs: Seq<char>, i: int) -> bool {
    i == 0 || (0 < i <= cs.len() && cs[i - 1] == '\n')
}

/// The line starting at `i`, without trailing carriage returns.
pub open spec fn bare_line(cs: Seq<char>, i: int) -> Seq<char> {
    trim_end_by(cs.subrange(i, line_end(cs, i)), Strip::Exactly('\r'))
}

/// The line at `i` opens a dynamic command fence.
pub open spec fn fence_open_at(cs: Seq<char>, i: int) -> bool {
    bare_line(cs, i) == "```!"@
}

/// The first line at or after `from` that closes a fence.
pub open spec fn closing_fence(cs: Seq<char>, from: int) -> Option<int>
    decreases cs.len() - from,
{
    if from < 0 || from >= cs.len() {
        None
    } else {
        proof {
            lemma_line_end(cs, from);
        }
        if bare_line(cs, from) == "```"@ {
            Some(from)
        } else if line_end(cs, from) >= cs.len() {
            None
        } else {
            closing_fence(cs, line_end(cs, from) + 1)
        }
    }
}

/// The first `c` at or after `from`.
pub open spec fn find_char(cs: Seq<char>, from: int, c: char) -> Option<int>
    decreases cs.len() - from,
{
    if from < 0 || from >= cs.len() {
        None
    } else if cs[from] == c {
        Some(from)
    } else {
        find_char(cs, from + 1, c)
    }
}

pub proof fn lemma_find_char(cs: Seq<char>, from: int, c: char)
    ensures
        find_char(cs, from, c) matches Some(i) ==> from <= i < cs.len() && cs[i] == c,
    decreases cs.len() - from,
{
    if 0 <= from < cs.len() && cs[from] != c {
        lemma_find_char(cs, from + 1, c);
    }
}

pub proof fn lemma_closing_fence(cs: Seq<char>, from: int)
    ensures
        closing_fence(cs, from) matches Some(c) ==> from <= c && c + 3 <= cs.len() && bare_line(
            cs,
            c,
        ) == "```"@,
    decreases cs.len() - from,
{
    if 0 <= from < cs.len() {
        lemma_line_end(cs, from);
        if bare_line(cs, from) == "```"@ {
            let l = cs.subrange(from, line_end(cs, from));
            crate::text::lemma_trim_end(l, Strip::Exactly('\r'));
            reveal_strlit("```");
            assert(bare_line(cs, from).len() == 3);
        } else if line_end(cs, from) < cs.len() {
            lemma_closing_fence(cs, line_end(cs, from) + 1);
        }
    }
}

/// A text segment is only added when not empty.
pub open spec fn with_text(acc: Seq<SegmentV>, t: Seq<char>) -> Seq<SegmentV> {
    if t.len() == 0 {
        acc
    } else {
        acc.push(SegmentV::Text(t))
    }
}

pub open spec fn unterminated_fence() -> Seq<char> {
    "unterminated dynamic command fence"@
}

pub open spec fn unterminated_inline() -> Seq<char> {
    "unterminated inline dynamic command"@
}

pub open spec fn empty_command() -> Seq<char> {
    "dynamic command must not be empty"@
}

/// An inline command may start at `i`: `` !` `` at the start or after
/// whitespace.
pub open spec fn inline_at(cs: Seq<char>, i: int) -> bool {
    has_prefix(cs.skip(i), "!`"@) && (i == 0 || is_ws(cs[i - 1]))
}

/// The segments of `cs`, scanning from `index` with the pending text
/// starting at `text_start` and `acc` found so far; or the syntax error.
pub open spec fn scan(cs: Seq<char>, index: int, text_start: int, acc: Seq<SegmentV>) -> Result<
    Seq<SegmentV>,
    Seq<char>,
>
    decreases cs.len() - index,
{
    if index < 0 || index >= cs.len() {
        Ok(with_text(acc, cs.subrange(text_start, cs.len() as int)))
    } else if line_start(cs, index) && fence_open_at(cs, index) {
        let e = line_end(cs, index);
        if e >= cs.len() {
            Err(unterminated_fence())
        } else {
            match closing_fence(cs, e + 1) {
                None => Err(unterminated_fence()),
                Some(c) => {
                    let cmd = trim_end_by(cs.subrange(e + 1, c), Strip::Exactly('\n'));
                    if blank_in(cmd) {
                        Err(empty_command())
                    } else {
                        proof {
                            lemma_line_end(cs, index);
                            lemma_closing_fence(cs, e + 1);
                        }
                        let next = if c + 3 < cs.len() && cs[c + 3] == '\n' {
                            c + 4
                        } else {
                            c + 3
                        };
                        scan(
                            cs,
                            next,
                            next,
                            with_text(acc, cs.subrange(text_start, index)).push(
                                SegmentV::Command(cmd),
                            ),
                        )
                    }
                },
            }
        }
    } else if inline_at(cs, index) {
        match find_char(cs, index + 2, '`') {
            None => Err(unterminated_inline()),
            Some(end) => {
                let cmd = cs.subrange(index + 2, end);
                if blank_in(cmd) {
                    Err(empty_command())
                } else {
                    proof {
                        lemma_find_char(cs, index + 2, '`');
                    }
                    scan(
                        cs,
                        end + 1,
                        end + 1,
                        with_text(acc, cs.subrange(text_start, index)).push(SegmentV::Command(cmd)),
                    )
                }
            },
        }
    } else {
        scan(cs, index + 1, text_start, acc)
    }
}

/// Whether position `index` starts a line.
pub fn is_line_start(cs: &[char], index: usize) -> (r: bool)
    requires
        index <= cs.len(),
    ensures
        r == line_start(cs@, index as int),
{
    index == 0 || cs[index - 1] == '\n'
}

/// Index of the first `\n` at or after `from`, or the length.
fn find_line_end(cs: &[char], from: usize) -> (e: usize)
    requires
        from <= cs.len(),
    ensures
        e == line_end(cs@, from as int),
{
    let mut e = from;
    while e < cs.len() && cs[e] != '\n'
        invariant
            from <= e <= cs.len(),
            line_end(cs@, from as int) == line_end(cs@, e as int),
        decreases cs.len() - e,
    {
        e += 1;
    }
    e
}

/// The line at `from` reads `lit` once trailing carriage returns are cut.
fn bare_line_is(cs: &[char], from: usize, lit: &str) -> (r: bool)
    requires
        from <= cs.len(),
    ensures
        r == (bare_line(cs@, from as int) == lit@),
{
    let e = find_line_end(cs, from);
    proof {
        lemma_line_end(cs@, from as int);
    }
    let l = slice_vec(cs, from, e);
    let t = crate::text::trim_end_chars(l.as_slice(), '\r');
    str_is(lit, t.as_slice())
}

/// Whether the line at `index` opens a dynamic command fence.
pub fn is_dynamic_fence_open(cs: &[char], index: usize) -> (r: bool)
    requires
        index <= cs.len(),
    ensures
        r == fence_open_at(cs@, index as int),
{
    bare_line_is(cs, index, "```!")
}

/// The first line at or after `start` that closes a fence.
pub fn find_closing_fence(cs: &[char], start: usize) -> (r: Option<usize>)
    ensures
        r == (match closing_fence(cs@, start as int) {
            Some(c) => Some(c as usize),
            None => None::<usize>,
        }),
{
    let mut offset = start;
    while offset < cs.len()
        invariant
            start <= offset,
            closing_fence(cs@, start as int) == closing_fence(cs@, offset as int),
        decreases cs.len() - offset,
    {
        if bare_line_is(cs, offset, "```") {
            return Some(offset);
        }
        let e = find_line_end(cs, offset);
        proof {
            lemma_line_end(cs@, offset as int);
        }
        if e >= cs.len() {
            return None;
        }
        offset = e + 1;
    }
    None
}

/// Adds `text` as a segment unless it is empty.
pub fn push_text(segments: &mut Vec<Segment>, text: &[char])
    ensures
        segment_views(final(segments)@) == with_text(segment_views(old(segments)@), text@),
{
    if text.len() > 0 {
        let ghost before = segment_views(segments@);
        segments.push(Segment::Text(string_of(text)));
        assert(segment_views(segments@) =~= before.push(SegmentV::Text(text@)));
    }
}

/// Adds a command segment, refusing a blank command.
pub fn push_command(segments: &mut Vec<Segment>, command: &[char]) -> (r: Result<(), RenderError>)
    ensures
        r is Ok <==> !blank_in(command@),
        r is Ok ==> segment_views(final(segments)@) == segment_views(old(segments)@).push(
            SegmentV::Command(command@),
        ),
        r matches Err(e) ==> e matches RenderError::InvalidSyntax(m) && m@ == empty_command(),
{
    let t = trimmed(command, Strip::Whitespace);
    proof {
        lemma_trim_bounds(command@, Strip::Whitespace);
    }
    if t.len() == 0 {
        return Err(RenderError::InvalidSyntax("dynamic command must not be empty".to_owned()));
    }
    let ghost before = segment_views(segments@);
    segments.push(Segment::Command(string_of(command)));
    assert(segment_views(segments@) =~= before.push(SegmentV::Command(command@)));
    Ok(())
}

/// Cuts a skill's text into literal parts and dynamic commands.
pub fn parse_dynamic_segments(content: &str) -> (r: Result<Vec<Segment>, RenderError>)
    ensures
        match (r, scan(content@, 0, 0, Seq::empty())) {
            (Ok(v), Ok(s)) => segment_views(v@) == s,
            (Err(RenderError::InvalidSyntax(m)), Err(sm)) => m@ == sm,
            _ => false,
        },
{
    let cs = chars_of(content);
    let mut segments: Vec<Segment> = Vec::new();
    let mut text_start: usize = 0;
    let mut index: usize = 0;
    assert(segment_views(segments@) =~= Seq::<SegmentV>::empty());
    while index < cs.len()
        invariant
            cs@ == content@,
            text_start <= index <= cs.len(),
            scan(cs@, 0, 0, Seq::empty()) == scan(
                cs@,
                index as int,
                text_start as int,
                segment_views(segments@),
            ),
        decreases cs.len() - index,
    {
        let ghost acc = segment_views(segments@);
        let ghost i0 = index as int;
        let ghost t0 = text_start as int;
        if is_line_start(cs.as_slice(), index) && is_dynamic_fence_open(cs.as_slice(), index) {
            let e = find_line_end(cs.as_slice(), index);
            proof {
                lemma_line_end(cs@, index as int);
            }
            if e >= cs.len() {
                return Err(
                    RenderError::InvalidSyntax("unterminated dynamic command fence".to_owned()),
                );
            }
            let closing = match find_closing_fence(cs.as_slice(), e + 1) {
                Some(c) => c,
                None => {
                    return Err(
                        RenderError::InvalidSyntax("unterminated dynamic command fence".to_owned()),
                    );
                },
            };
            proof {
                lemma_closing_fence(cs@, e + 1);
            }
            let lead = slice_vec(cs.as_slice(), text_start, index);
            push_text(&mut segments, lead.as_slice());
            let body = slice_vec(cs.as_slice(), e + 1, closing);
            let cmd = crate::text::trim_end_chars(body.as_slice(), '\n');
            match push_command(&mut segments, cmd.as_slice()) {
                Ok(()) => {},
                Err(err) => {
                    return Err(err);
                },
            }
            index = closing + 3;
            if index < cs.len() && cs[index] == '\n' {
                index += 1;
            }
            text_start = index;
            assert(scan(cs@, i0, t0, acc) == scan(cs@, index as int, text_start as int, segment_views(segments@)));
        } else if index + 1 < cs.len() && cs[index] == '!' && cs[index + 1] == '`' && (index == 0
            || is_whitespace(cs[index - 1])) {
            proof {
                assert(has_prefix(cs@.skip(index as int), "!`"@)) by {
                    reveal_strlit("!`");
                    assert(cs@.skip(index as int).take(2) =~= "!`"@);
                }
            }
            let command_start = index + 2;
            let mut end = command_start;
            while end < cs.len() && cs[end] != '`'
                invariant
                    command_start <= end <= cs.len(),
                    find_char(cs@, command_start as int, '`') == find_char(cs@, end as int, '`'),
                decreases cs.len() - end,
            {
                end += 1;
            }
            if end == cs.len() {
                return Err(
                    RenderError::InvalidSyntax("unterminated inline dynamic command".to_owned()),
                );
            }
            let lead = slice_vec(cs.as_slice(), text_start, index);
            push_text(&mut segments, lead.as_slice());
            let cmd = slice_vec(cs.as_slice(), command_start, end);
            match push_command(&mut segments, cmd.as_slice()) {
                Ok(()) => {},
                Err(err) => {
                    return Err(err);
                },
            }
            index = end + 1;
            text_start = index;
            assert(scan(cs@, i0, t0, acc) == scan(cs@, index as int, text_start as int, segment_views(segments@)));
        } else {
            proof {
                if inline_at(cs@, index as int) {
                    reveal_strlit("!`");
                    assert(cs@.skip(index as int).take(2) == "!`"@);
                    assert("!`"@ =~= seq!['!', '`']);
                    assert(cs@.skip(index as int).take(2)[0] == cs@.skip(index as int)[0]);
                    assert(cs@.skip(index as int).take(2)[1] == cs@.skip(index as int)[1]);
                    assert(cs@.skip(index as int)[0] == cs@[index as int]);
                    assert(cs@.skip(index as int)[1] == cs@[index + 1]);
                    assert(cs@[index as int] == '!');
                    assert(cs@[index + 1] == '`');
                    assert(index + 1 < cs@.len());
                    assert(index == 0 || is_ws(cs@[index - 1]));
                    assert(false);
                }
            }
            index += 1;
            assert(scan(cs@, i0, t0, acc) == scan(cs@, index as int, text_start as int, segment_views(segments@)));
        }
    }
    let tail = slice_vec(cs.as_slice(), text_start, cs.len());
    push_text(&mut segments, tail.as_slice());
    Ok(segments)
}

// ---------------------------------------------------------------------------
// Placeholders.
// ---------------------------------------------------------------------------

/// `str::replace(p, w)` for a non-empty `p`: each occurrence, scanning from
/// the left without overlaps, becomes `w`.
pub open spec fn replace_all(s: Seq<char>, p: Seq<char>, w: Seq<char>) -> Seq<char>
    decreases s.len(),
{
    if p.len() == 0 || s.len() < p.len() {
        s
    } else if has_prefix(s, p) {
        w + replace_all(s.skip(p.len() as int), p, w)
    } else {
        seq![s[0]] + replace_all(s.drop_first(), p, w)
    }
}

/// Replaces every occurrence of the non-empty `p` in `s` by `w`.
pub fn replace(s: &[char], p: &str, w: &str) -> (r: Vec<char>)
    requires
        p@.len() > 0,
    ensures
        r@ == replace_all(s@, p@, w@),
{
    let pv = chars_of(p);
    let wv = chars_of(w);
    let mut out: Vec<char> = Vec::new();
    let mut i: usize = 0;
    assert(s@.skip(0) == s@);
    while i < s.len()
        invariant
            i <= s.len(),
            pv@ == p@,
            wv@ == w@,
            p@.len() > 0,
            out@ + replace_all(s@.skip(i as int), p@, w@) == replace_all(s@, p@, w@),
        decreases s.len() - i,
    {
        let ghost rest = s@.skip(i as int);
        if pv.len() <= s.len() - i && crate::text::matches_at(s, pv.as_slice(), i) {
            assert(rest.take(pv@.len() as int) == s@.subrange(i as int, i + pv@.len()));
            assert(rest.skip(pv@.len() as int) == s@.skip(i + pv@.len()));
            let ghost before = out@;
            crate::text::extend(&mut out, wv.as_slice());
            assert(out@ + replace_all(s@.skip(i + pv@.len()), p@, w@) =~= before + (w@
                + replace_all(rest.skip(pv@.len() as int), p@, w@)));
            i = i + pv.len();
        } else {
            proof {
                if rest.len() >= p@.len() && crate::text::has_prefix(rest, p@) {
                    assert(rest.take(pv@.len() as int) == s@.subrange(i as int, i + pv@.len()));
                }
            }
            let ghost before = out@;
            out.push(s[i]);
            assert(rest.drop_first() == s@.skip(i + 1));
            proof {
                if rest.len() >= p@.len() {
                    assert(out@ + replace_all(s@.skip(i + 1), p@, w@) =~= before + (seq![rest[0]]
                        + replace_all(rest.drop_first(), p@, w@)));
                } else {
                    assert(replace_all(rest, p@, w@) == rest);
                    assert(rest.drop_first().len() < p@.len());
                    assert(replace_all(rest.drop_first(), p@, w@) == rest.drop_first());
                    assert(out@ + replace_all(s@.skip(i + 1), p@, w@) =~= before + rest);
                }
            }
            i = i + 1;
        }
    }
    assert(replace_all(s@.skip(i as int), p@, w@) =~= Seq::<char>::empty());
    assert(out@ + Seq::<char>::empty() =~= out@);
    out
}

pub open spec fn spec_skill_home(skill: Skill) -> Seq<char> {
    match skill.origin {
        SkillOrigin::System => SYSTEM_SKILLS_HOME@ + "/"@ + skill.manifest.name@,
        SkillOrigin::User => USER_SKILLS_HOME@ + "/"@ + skill.manifest.name@,
    }
}

/// Where the skill's bundle is visible to the agent.
pub fn skill_home(skill: &Skill) -> (r: String)
    ensures
        r@ == spec_skill_home(*skill),
{
    let mut s = match skill.origin {
        SkillOrigin::System => SYSTEM_SKILLS_HOME.to_owned(),
        SkillOrigin::User => USER_SKILLS_HOME.to_owned(),
    };
    push_str(&mut s, "/");
    push_str(&mut s, skill.manifest.name.as_str());
    s
}

/// The skill's text with `%SKILL_HOME%`, `%USER_HOME%` and `%WORKSPACE%`
/// replaced, in that order.
pub open spec fn spec_substituted(skill: Skill) -> Seq<char> {
    replace_all(
        replace_all(
            replace_all(skill.content@, "%SKILL_HOME%"@, spec_skill_home(skill)),
            "%USER_HOME%"@,
            USER_HOME@,
        ),
        "%WORKSPACE%"@,
        AGENT_HOME@,
    )
}

/// Substitutes the path placeholders of a skill's text.
pub fn substitute_placeholders(skill: &Skill) -> (r: Vec<char>)
    ensures
        r@ == spec_substituted(*skill),
{
    let home = skill_home(skill);
    let content = chars_of(skill.content.as_str());
    proof {
        reveal_strlit("%SKILL_HOME%");
        reveal_strlit("%USER_HOME%");
        reveal_strlit("%WORKSPACE%");
    }
    let a = replace(content.as_slice(), "%SKILL_HOME%", home.as_str());
    let b = replace(a.as_slice(), "%USER_HOME%", USER_HOME);
    replace(b.as_slice(), "%WORKSPACE%", AGENT_HOME)
}

// ---------------------------------------------------------------------------
// Splicing command output.
// ---------------------------------------------------------------------------

/// The longest prefix of `s` whose UTF-8 encoding fits in `max` bytes.
pub open spec fn fit_prefix(s: Seq<char>, max: nat) -> Seq<char>
    decreases s.len(),
{
    if utf8_len(s) <= max || s.len() == 0 {
        s
    } else {
        fit_prefix(s.drop_last(), max)
    }
}

proof fn lemma_fit_prefix(s: Seq<char>, k: int, max: nat)
    requires
        0 <= k <= s.len(),
        utf8_len(s.take(k)) <= max,
        k < s.len() ==> utf8_len(s.take(k + 1)) > max,
    ensures
        fit_prefix(s, max) == s.take(k),
    decreases s.len(),
{
    if s.len() == k {
        assert(s.take(k) == s);
    } else {
        crate::text::lemma_utf8_len_prefix(s, k + 1);
        assert(s.take(s.len() as int) == s);
        let d = s.drop_last();
        assert(d.take(k) == s.take(k));
        if k < d.len() {
            assert(d.take(k + 1) == s.take(k + 1));
        }
        lemma_fit_prefix(d, k, max);
    }
}

/// Cuts `value` to at most `max_bytes` bytes, on a character boundary.
pub fn truncate_utf8(value: &mut String, max_bytes: usize)
    ensures
        final(value)@ == fit_prefix(old(value)@, max_bytes as nat),
{
    let cs = chars_of(value.as_str());
    let mut k: usize = 0;
    let mut total: usize = 0;
    assert(cs@.take(0) =~= Seq::<char>::empty());
    while k < cs.len() && char_len_utf8(cs[k]) <= max_bytes - total
        invariant
            k <= cs.len(),
            total == utf8_len(cs@.take(k as int)),
            total <= max_bytes,
        decreases cs.len() - k,
    {
        assert(cs@.take(k + 1).drop_last() == cs@.take(k as int));
        total = total + char_len_utf8(cs[k]);
        k += 1;
    }
    proof {
        if k < cs.len() {
            assert(cs@.take(k + 1).drop_last() == cs@.take(k as int));
        }
        lemma_fit_prefix(cs@, k as int, max_bytes as nat);
    }
    let kept = slice_vec(cs.as_slice(), 0, k);
    *value = string_of(kept.as_slice());
}

/// Appends `value` unless the rendered skill would exceed its size limit.
pub fn append_bounded(rendered: &mut String, value: &str) -> (r: Result<(), RenderError>)
    ensures
        r is Ok <==> utf8_len(old(rendered)@) + utf8_len(value@) <= MAX_RENDERED_SKILL,
        r is Ok ==> final(rendered)@ == old(rendered)@ + value@,
        r is Err ==> (r matches Err(RenderError::TooLarge)) && final(rendered)@ == old(rendered)@,
{
    let have = crate::text::byte_len(rendered.as_str());
    let add = crate::text::byte_len(value);
    if have > MAX_RENDERED_SKILL || add > MAX_RENDERED_SKILL - have {
        return Err(RenderError::TooLarge);
    }
    push_str(rendered, value);
    Ok(())
}

/// What a shell command reported.
#[derive(Clone, Debug)]
pub struct CommandOutcome {
    pub success: bool,
    pub stdout: String,
    pub stderr: String,
    pub error: Option<String>,
    pub exit_code: Option<i32>,
}

/// The stderr reported for a failed command: its stderr, then the runner's
/// error on a line of its own, cut to the error size limit.
pub open spec fn failure_stderr(o: CommandOutcome) -> Seq<char> {
    let joined = match o.error {
        None => o.stderr@,
        Some(e) => if o.stderr@.len() == 0 {
            e@
        } else {
            o.stderr@ + seq!['\n'] + e@
        },
    };
    fit_prefix(joined, MAX_ERROR_OUTPUT as nat)
}

/// Splices a command's output into the rendered skill, or reports why it
/// cannot be.
pub fn append_command_output(
    rendered: &mut String,
    command: String,
    result: CommandOutcome,
) -> (r: Result<(), RenderError>)
    ensures
        !result.success ==> final(rendered)@ == old(rendered)@ && (r matches Err(
            RenderError::Command { command: c, reason, exit_status, stderr },
        ) && c@ == command@ && reason@ == "non-zero exit"@ && exit_status == result.exit_code
            && stderr@ == failure_stderr(result)),
        result.success && utf8_len(result.stdout@) > MAX_COMMAND_OUTPUT ==> final(rendered)@
            == old(rendered)@ && (r matches Err(
            RenderError::Command { command: c, reason, exit_status, stderr },
        ) && c@ == command@ && reason@ == "stdout exceeds 256 KiB"@ && exit_status
            == result.exit_code && stderr@ == Seq::<char>::empty()),
        result.success && utf8_len(result.stdout@) <= MAX_COMMAND_OUTPUT ==> (r is Ok <==> utf8_len(
            old(rendered)@,
        ) + utf8_len(result.stdout@) <= MAX_RENDERED_SKILL) && (r is Ok ==> final(rendered)@
            == old(rendered)@ + result.stdout@) && (r is Err ==> (r matches Err(
            RenderError::TooLarge,
        )) && final(rendered)@ == old(rendered)@),
{
    if !result.success {
        let mut stderr = result.stderr;
        match &result.error {
            Some(e) => {
                if !stderr.as_str().is_empty() {
                    crate::text::push_char(&mut stderr, '\n');
                }
                push_str(&mut stderr, e.as_str());
            },
            None => {},
        }
        let ghost joined = match result.error {
            None => result.stderr@,
            Some(e) => if result.stderr@.len() == 0 {
                e@
            } else {
                result.stderr@ + seq!['\n'] + e@
            },
        };
        assert(stderr@ =~= joined);
        truncate_utf8(&mut stderr, MAX_ERROR_OUTPUT);
        assert(stderr@ == failure_stderr(result));
        return Err(
            RenderError::Command {
                command,
                reason: "non-zero exit",
                exit_status: result.exit_code,
                stderr,
            },
        );
    }
    if crate::text::byte_len(result.stdout.as_str()) > MAX_COMMAND_OUTPUT {
        return Err(
            RenderError::Command {
                command,
                reason: "stdout exceeds 256 KiB",
                exit_status: result.exit_code,
                stderr: String::new(),
            },
        );
    }
    append_bounded(rendered, result.stdout.as_str())
}

/// Truncation keeps the longest prefix that fits: what remains is a prefix
/// of the text, fits in `max` bytes, and the next character would not.
pub proof fn lemma_truncation_keeps_longest_prefix(s: Seq<char>, max: nat)
    ensures
        fit_prefix(s, max).len() <= s.len(),
        fit_prefix(s, max) == s.take(fit_prefix(s, max).len() as int),
        utf8_len(fit_prefix(s, max)) <= max,
        fit_prefix(s, max).len() < s.len() ==> utf8_len(s.take(fit_prefix(s, max).len() as int + 1)) > max,
    decreases s.len(),
{
    if utf8_len(s) <= max || s.len() == 0 {
        assert(s.take(s.len() as int) == s);
    } else {
        lemma_truncation_keeps_longest_prefix(s.drop_last(), max);
        let f = fit_prefix(s.drop_last(), max);
        assert(s.drop_last().take(f.len() as int) == s.take(f.len() as int));
        if f.len() < s.drop_last().len() {
            assert(s.drop_last().take(f.len() as int + 1) == s.take(f.len() as int + 1));
        } else {
            assert(s.take(f.len() as int + 1) == s);
        }
    }
}

// ---------------------------------------------------------------------------
// Rendering, one command at a time.
// ---------------------------------------------------------------------------

/// A rendering error by the values it holds.
pub enum RenderErrorV {
    InvalidSyntax(Seq<char>),
    Command { command: Seq<char>, reason: Seq<char>, exit_status: Option<i32>, stderr: Seq<char> },
    TooLarge,
}

pub open spec fn render_error_view(e: RenderError) -> RenderErrorV {
    match e {
        RenderError::InvalidSyntax(m) => RenderErrorV::InvalidSyntax(m@),
        RenderError::Command { command, reason, exit_status, stderr } => RenderErrorV::Command {
            command: command@,
            reason: reason@,
            exit_status,
            stderr: stderr@,
        },
        RenderError::TooLarge => RenderErrorV::TooLarge,
    }
}

/// Where a rendering stands: done, with the rendered text, or waiting for
/// the outcome of a command line.
pub enum RenderStep {
    Rendered(String),
    Run(String),
}

pub enum RenderStepV {
    Rendered(Seq<char>),
    Run(Seq<char>),
}

pub open spec fn render_step_view(r: Result<RenderStep, RenderError>) -> Result<RenderStepV, RenderErrorV> {
    match r {
        Ok(RenderStep::Rendered(t)) => Ok(RenderStepV::Rendered(t@)),
        Ok(RenderStep::Run(c)) => Ok(RenderStepV::Run(c@)),
        Err(e) => Err(render_error_view(e)),
    }
}

/// The rendered text after a command's outcome is spliced in, or why it
/// cannot be.
pub open spec fn splice_outcome(rendered: Seq<char>, command: Seq<char>, o: CommandOutcome) -> Result<
    Seq<char>,
    RenderErrorV,
> {
    if !o.success {
        Err(
            RenderErrorV::Command {
                command,
                reason: "non-zero exit"@,
                exit_status: o.exit_code,
                stderr: failure_stderr(o),
            },
        )
    } else if utf8_len(o.stdout@) > MAX_COMMAND_OUTPUT {
        Err(
            RenderErrorV::Command {
                command,
                reason: "stdout exceeds 256 KiB"@,
                exit_status: o.exit_code,
                stderr: Seq::empty(),
            },
        )
    } else if utf8_len(rendered) + utf8_len(o.stdout@) <= MAX_RENDERED_SKILL {
        Ok(rendered + o.stdout@)
    } else {
        Err(RenderErrorV::TooLarge)
    }
}

/// Renders the segments from `i` on, after `rendered`, with the outcomes of
/// the commands from the `k`-th on (`None` for a command that timed out).
/// Literal parts are appended within the size limit; a command fails the
/// render when there is no shell; a command without a recorded outcome is
/// the one to run next (trimmed).
pub open spec fn render_from(
    segs: Seq<SegmentV>,
    i: int,
    rendered: Seq<char>,
    has_shell: bool,
    outcomes: Seq<Option<CommandOutcome>>,
    k: int,
) -> Result<RenderStepV, RenderErrorV>
    decreases segs.len() - i,
{
    if i < 0 || i >= segs.len() {
        Ok(RenderStepV::Rendered(rendered))
    } else {
        match segs[i] {
            SegmentV::Text(t) => if utf8_len(rendered) + utf8_len(t) <= MAX_RENDERED_SKILL {
                render_from(segs, i + 1, rendered + t, has_shell, outcomes, k)
            } else {
                Err(RenderErrorV::TooLarge)
            },
            SegmentV::Command(c) => if !has_shell {
                Err(
                    RenderErrorV::Command {
                        command: c,
                        reason: "skill shell is unavailable"@,
                        exit_status: None,
                        stderr: Seq::empty(),
                    },
                )
            } else if k < 0 || k >= outcomes.len() {
                Ok(RenderStepV::Run(trim(c)))
            } else {
                match outcomes[k] {
                    None => Err(
                        RenderErrorV::Command {
                            command: c,
                            reason: "timeout"@,
                            exit_status: None,
                            stderr: Seq::empty(),
                        },
                    ),
                    Some(o) => match splice_outcome(rendered, c, o) {
                        Err(e) => Err(e),
                        Ok(r2) => render_from(segs, i + 1, r2, has_shell, outcomes, k + 1),
                    },
                }
            },
        }
    }
}

/// Rendering a skill with the outcomes of its first commands.
pub open spec fn spec_render_skill(skill: Skill, has_shell: bool, outcomes: Seq<Option<CommandOutcome>>) -> Result<
    RenderStepV,
    RenderErrorV,
> {
    match scan(spec_substituted(skill), 0, 0, Seq::empty()) {
        Err(m) => Err(RenderErrorV::InvalidSyntax(m)),
        Ok(segs) => render_from(segs, 0, Seq::empty(), has_shell, outcomes, 0),
    }
}

/// A copy of an outcome, field by field.
fn copy_outcome(o: &CommandOutcome) -> (r: CommandOutcome)
    ensures
        r.success == o.success,
        r.stdout@ == o.stdout@,
        r.stderr@ == o.stderr@,
        crate::skills::opt_view(r.error) == crate::skills::opt_view(o.error),
        r.exit_code == o.exit_code,
        failure_stderr(r) == failure_stderr(*o),
{
    let r = CommandOutcome {
        success: o.success,
        stdout: o.stdout.clone(),
        stderr: o.stderr.clone(),
        error: crate::skills::copy_opt(&o.error),
        exit_code: o.exit_code,
    };
    proof {
        if o.error is Some {
            assert(r.error is Some);
        } else {
            assert(r.error is None);
        }
    }
    r
}

/// Renders a skill for the agent, given the outcomes of the commands run so
/// far, in order (`None` for one that timed out): either the rendered text,
/// or the next command line to run, or why the render fails. `has_shell`
/// says whether the agent has a shell to run commands in.
pub fn render_skill(skill: &Skill, has_shell: bool, outcomes: &[Option<CommandOutcome>]) -> (r: Result<
    RenderStep,
    RenderError,
>)
    ensures
        render_step_view(r) == spec_render_skill(*skill, has_shell, outcomes@),
{
    let substituted = string_of(substitute_placeholders(skill).as_slice());
    let segments = match parse_dynamic_segments(substituted.as_str()) {
        Ok(v) => v,
        Err(e) => {
            return Err(e);
        },
    };
    let ghost segs = segment_views(segments@);
    let mut rendered = String::new();
    let mut i: usize = 0;
    let mut k: usize = 0;
    while i < segments.len()
        invariant
            i <= segments.len(),
            k <= outcomes.len(),
            segs == segment_views(segments@),
            scan(spec_substituted(*skill), 0, 0, Seq::empty()) == Ok::<Seq<SegmentV>, Seq<char>>(segs),
            spec_render_skill(*skill, has_shell, outcomes@) == render_from(
                segs,
                i as int,
                rendered@,
                has_shell,
                outcomes@,
                k as int,
            ),
        decreases segments.len() - i,
    {
        assert(segs[i as int] == segment_view(segments@[i as int]));
        match &segments[i] {
            Segment::Text(text) => {
                match append_bounded(&mut rendered, text.as_str()) {
                    Ok(()) => {},
                    Err(e) => {
                        return Err(e);
                    },
                }
            },
            Segment::Command(command) => {
                if !has_shell {
                    return Err(
                        RenderError::Command {
                            command: command.clone(),
                            reason: "skill shell is unavailable",
                            exit_status: None,
                            stderr: String::new(),
                        },
                    );
                }
                if k >= outcomes.len() {
                    let cs = chars_of(command.as_str());
                    let t = trimmed(cs.as_slice(), Strip::Whitespace);
                    return Ok(RenderStep::Run(string_of(t.as_slice())));
                }
                match &outcomes[k] {
                    None => {
                        return Err(
                            RenderError::Command {
                                command: command.clone(),
                                reason: "timeout",
                                exit_status: None,
                                stderr: String::new(),
                            },
                        );
                    },
                    Some(o) => {
                        let oc = copy_outcome(o);
                        let cc = command.clone();
                        match append_command_output(&mut rendered, cc, oc) {
                            Ok(()) => {},
                            Err(e) => {
                                return Err(e);
                            },
                        }
                        k += 1;
                    },
                }
            },
        }
        i += 1;
    }
    Ok(RenderStep::Rendered(rendered))
}

} // verus!
