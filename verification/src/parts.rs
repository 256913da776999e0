//! Splits an agent message into ordered, typed parts so clients can render
//! prose and interactive artifacts as independently streamed elements.
//!
//! Only artifact fences (```` ```html ````) split the stream; every other
//! fence stays inside its surrounding text part as a normal code block.
use vstd::prelude::*;

use crate::text::{
    ascii_lower, chars_of, copy_chars, extend, join, join_range, skip_class, slice_vec, split,
    split_on, string_of, to_ascii_lower, trim, trim_bounds, trim_by, trim_start_by, trimmed,
    utf8_len, utf8_len_exceeds, views, Strip, lemma_trim_end_keeps,
};

verus! {

/// Largest artifact body (in UTF-8 bytes) handed to clients. An oversized
/// artifact is downgraded to a plain code block.
pub const MAX_ARTIFACT_BYTES: usize = 262144;

#[derive(Clone, Copy, Debug, PartialEq, Eq, Structural)]
pub enum PartKind {
    Text,
    Artifact,
}

impl PartKind {
    pub open spec fn spec_name(self) -> Seq<char> {
        match self {
            PartKind::Text => seq!['t', 'e', 'x', 't'],
            PartKind::Artifact => seq!['a', 'r', 't', 'i', 'f', 'a', 'c', 't'],
        }
    }

    /// Wire name of the kind: `"text"` or `"artifact"`.
    pub fn as_str(self) -> (s: &'static str)
        ensures
            s@ == self.spec_name(),
    {
        match self {
            PartKind::Text => {
                let s = "text";
                proof {
                    reveal_strlit("text");
                }
                s
            },
            PartKind::Artifact => {
                let s = "artifact";
                proof {
                    reveal_strlit("artifact");
                }
                s
            },
        }
    }
}

/// One ordered slice of a message. `closed` gates artifact rendering: an
/// artifact is shown only once its fence closes.
#[derive(Clone, Debug, PartialEq, Eq)]
pub struct MessagePart {
    pub kind: PartKind,
    pub lang: Option<String>,
    pub content: String,
    pub closed: bool,
}

/// The mathematical value of a [`MessagePart`].
pub struct PartView {
    pub kind: PartKind,
    pub lang: Option<Seq<char>>,
    pub content: Seq<char>,
    pub closed: bool,
}

impl View for MessagePart {
    type V = PartView;

    open spec fn view(&self) -> PartView {
        PartView {
            kind: self.kind,
            lang: match self.lang {
                Some(l) => Some(l@),
                None => None,
            },
            content: self.content@,
            closed: self.closed,
        }
    }
}

pub open spec fn part_views(parts: Seq<MessagePart>) -> Seq<PartView> {
    parts.map_values(|p: MessagePart| p@)
}

pub open spec fn text_part(content: Seq<char>, closed: bool) -> PartView {
    PartView { kind: PartKind::Text, lang: None, content, closed }
}

impl MessagePart {
    fn text(content: String, closed: bool) -> (p: Self)
        ensures
            p@ == text_part(content@, closed),
    {
        MessagePart { kind: PartKind::Text, lang: None, content, closed }
    }
}

/// Number of backticks that `s` starts with.
pub open spec fn tick_run(s: Seq<char>) -> nat
    decreases s.len(),
{
    if s.len() > 0 && s[0] == '`' {
        1 + tick_run(s.drop_first())
    } else {
        0
    }
}

proof fn lemma_tick_run(s: Seq<char>, n: nat)
    ensures
        (tick_run(s) >= n) <==> (n <= s.len() && forall|i: int| 0 <= i < n ==> s[i] == '`'),
        (n <= s.len() && (forall|i: int| 0 <= i < n ==> s[i] == '`') && (n == s.len() || s[n as int]
            != '`')) ==> tick_run(s) == n,
    decreases n,
{
    if n == 0 {
        if s.len() > 0 && s[0] == '`' {
        }
    } else if s.len() == 0 {
    } else if s[0] != '`' {
    } else {
        let d = s.drop_first();
        lemma_tick_run(d, (n - 1) as nat);
        if n <= s.len() && (forall|i: int| 0 <= i < n ==> s[i] == '`') {
            assert forall|i: int| 0 <= i < n - 1 implies d[i] == '`' by {
                assert(d[i] == s[i + 1]);
            }
        }
        if n - 1 <= d.len() && (forall|i: int| 0 <= i < n - 1 ==> d[i] == '`') {
            assert forall|i: int| 0 <= i < n implies s[i] == '`' by {
                if i > 0 {
                    assert(d[i - 1] == s[i]);
                }
            }
        }
        if n < s.len() {
            assert(d[n - 1] == s[n as int]);
        }
    }
}

/// A fence opener on `line`: the number of backticks and the trimmed
/// language tag that follows them; `None` below three backticks.
pub open spec fn fence_opener(line: Seq<char>) -> Option<(nat, Seq<char>)> {
    let t = trim_start_by(line, Strip::Whitespace);
    let n = tick_run(t);
    if n < 3 {
        None
    } else {
        Some((n, trim(t.skip(n as int))))
    }
}

/// Whether `line` closes a fence opened with `n` backticks.
pub open spec fn closes_fence(line: Seq<char>, n: nat) -> bool {
    let t = trim(line);
    tick_run(t) >= n && trim(t.skip(n as int)).len() == 0
}

/// Whether a fence language marks an artifact (`html`, any ASCII case).
pub open spec fn artifact_lang(lang: Seq<char>) -> bool {
    &&& lang.len() == 4
    &&& ascii_lower(lang[0]) == 'h'
    &&& ascii_lower(lang[1]) == 't'
    &&& ascii_lower(lang[2]) == 'm'
    &&& ascii_lower(lang[3]) == 'l'
}

fn fence_open(line: &[char]) -> (r: Option<(usize, Vec<char>)>)
    ensures
        match (r, fence_opener(line@)) {
            (Some((n, lang)), Some((m, l))) => n == m && lang@ == l,
            (None, None) => true,
            _ => false,
        },
{
    let a = skip_class(line, 0, Strip::Whitespace);
    assert(line@.skip(0) == line@);
    let mut j = a;
    while j < line.len() && line[j] == '`'
        invariant
            a <= j <= line.len(),
            forall|k: int| a <= k < j ==> line@[k] == '`',
        decreases line.len() - j,
    {
        j += 1;
    }
    let ghost t = line@.skip(a as int);
    proof {
        assert forall|k: int| 0 <= k < j - a implies t[k] == '`' by {
            assert(t[k] == line@[a + k]);
        }
        if j < line.len() {
            assert(t[j - a] == line@[j as int]);
        }
        lemma_tick_run(t, (j - a) as nat);
    }
    if j - a < 3 {
        return None;
    }
    let lang = trimmed_range(line, j, line.len());
    assert(t.skip(j - a) == line@.subrange(j as int, line.len() as int));
    Some((j - a, lang))
}

/// `trim(v[from..to])` as a new vector.
fn trimmed_range(v: &[char], from: usize, to: usize) -> (r: Vec<char>)
    requires
        from <= to <= v.len(),
    ensures
        r@ == trim(v@.subrange(from as int, to as int)),
{
    let (a, b) = trim_bounds(v, from, to, Strip::Whitespace);
    slice_vec(v, a, b)
}

fn is_fence_close(line: &[char], n: usize) -> (b: bool)
    ensures
        b == closes_fence(line@, n as nat),
{
    let (a, b) = trim_bounds(line, 0, line.len(), Strip::Whitespace);
    assert(line@.subrange(0, line.len() as int) == line@);
    let ghost t = line@.subrange(a as int, b as int);
    if b - a < n {
        proof {
            lemma_tick_run(t, n as nat);
        }
        return false;
    }
    let mut k: usize = 0;
    while k < n
        invariant
            k <= n <= b - a,
            a <= b <= line.len(),
            t == line@.subrange(a as int, b as int),
            t == trim(line@),
            forall|i: int| 0 <= i < k ==> t[i] == '`',
        decreases n - k,
    {
        if line[a + k] != '`' {
            proof {
                lemma_tick_run(t, n as nat);
                assert(t[k as int] == line@[a + k]);
            }
            return false;
        }
        k += 1;
    }
    proof {
        lemma_tick_run(t, n as nat);
    }
    let (c, d) = trim_bounds(line, a + n, b, Strip::Whitespace);
    assert(t.skip(n as int) == line@.subrange(a + n, b as int));
    c == d
}

fn is_artifact_lang(lang: &[char]) -> (b: bool)
    ensures
        b == artifact_lang(lang@),
{
    lang.len() == 4 && to_ascii_lower(lang[0]) == 'h' && to_ascii_lower(lang[1]) == 't'
        && to_ascii_lower(lang[2]) == 'm' && to_ascii_lower(lang[3]) == 'l'
}

/// The parts after the buffered prose lines are flushed: joined with
/// newlines, stripped of surrounding blank lines, dropped when blank.
pub open spec fn flush(parts: Seq<PartView>, buffer: Seq<Seq<char>>) -> Seq<PartView> {
    if buffer.len() == 0 {
        parts
    } else {
        let t = trim_by(join(buffer, seq!['\n']), Strip::Exactly('\n'));
        if trim(t).len() == 0 {
            parts
        } else {
            parts.push(text_part(t, true))
        }
    }
}

fn push_text(parts: &mut Vec<MessagePart>, buffer: &mut Vec<Vec<char>>)
    ensures
        part_views(final(parts)@) == flush(part_views(old(parts)@), views(old(buffer)@)),
        final(buffer)@.len() == 0,
{
    if buffer.len() == 0 {
        return;
    }
    let nl = ['\n'];
    let text = join_range(buffer, 0, buffer.len(), &nl);
    assert(views(buffer@).subrange(0, buffer.len() as int) == views(buffer@));
    assert(nl@ == seq!['\n']);
    let t = trimmed(&text, Strip::Exactly('\n'));
    let (a, b) = trim_bounds(&t, 0, t.len(), Strip::Whitespace);
    assert(t@.subrange(0, t.len() as int) == t@);
    *buffer = Vec::new();
    if a < b {
        let ghost before = part_views(parts@);
        parts.push(MessagePart::text(string_of(&t), true));
        assert(part_views(parts@) =~= before.push(text_part(t@, true)));
    }
}

/// Index of the first line at or after `j` that closes a fence of `n`
/// backticks, or `lines.len()` when none does.
pub open spec fn body_end(lines: Seq<Seq<char>>, j: int, n: nat) -> int
    decreases lines.len() - j,
{
    if j >= lines.len() {
        lines.len() as int
    } else if closes_fence(lines[j], n) {
        j
    } else {
        body_end(lines, j + 1, n)
    }
}

proof fn lemma_body_end(lines: Seq<Seq<char>>, j: int, n: nat)
    requires
        0 <= j,
    ensures
        j <= body_end(lines, j, n) <= lines.len() || (j > lines.len() && body_end(lines, j, n)
            == lines.len()),
        body_end(lines, j, n) < lines.len() ==> closes_fence(lines[body_end(lines, j, n)], n),
    decreases lines.len() - j,
{
    if j < lines.len() && !closes_fence(lines[j], n) {
        lemma_body_end(lines, j + 1, n);
    }
}

pub open spec fn ticks3() -> Seq<char> {
    seq!['`', '`', '`']
}

/// The code block an artifact is downgraded to.
pub open spec fn code_block(source: Seq<char>, oversized: bool, closed: bool) -> Seq<char> {
    let fence = if oversized {
        ticks3() + seq!['t', 'e', 'x', 't']
    } else {
        ticks3() + seq!['h', 't', 'm', 'l']
    };
    let open = fence + seq!['\n'] + source;
    if closed {
        open + seq!['\n'] + ticks3()
    } else {
        open
    }
}

/// The part made from an artifact body.
pub open spec fn artifact_part(source: Seq<char>, lang: Seq<char>, closed: bool, finalize: bool) -> PartView {
    let oversized = utf8_len(source) > MAX_ARTIFACT_BYTES;
    if oversized || (finalize && !closed) {
        text_part(code_block(source, oversized, closed), closed || finalize)
    } else {
        PartView { kind: PartKind::Artifact, lang: Some(lang), content: source, closed }
    }
}

/// Marks the trailing text part as still streaming unless finalizing.
pub open spec fn finish(parts: Seq<PartView>, finalize: bool) -> Seq<PartView> {
    if !finalize && parts.len() > 0 && parts.last().kind == PartKind::Text {
        parts.update(parts.len() - 1, PartView { closed: false, ..parts.last() })
    } else {
        parts
    }
}

/// The segmentation of `lines[i..]`, given the prose lines buffered so far and
/// the parts already emitted.
pub open spec fn seg_from(
    lines: Seq<Seq<char>>,
    i: int,
    buffer: Seq<Seq<char>>,
    parts: Seq<PartView>,
    finalize: bool,
) -> Seq<PartView>
    decreases lines.len() - i,
{
    if i < 0 || i >= lines.len() {
        finish(flush(parts, buffer), finalize)
    } else {
        match fence_opener(lines[i]) {
            Some((n, lang)) if artifact_lang(lang) => {
                let j = body_end(lines, i + 1, n);
                let closed = j < lines.len();
                let source = join(lines.subrange(i + 1, j), seq!['\n']);
                let next = if closed {
                    j + 1
                } else {
                    j
                };
                if i < next <= lines.len() {
                    seg_from(
                        lines,
                        next,
                        Seq::empty(),
                        flush(parts, buffer).push(artifact_part(source, lang, closed, finalize)),
                        finalize,
                    )
                } else {
                    parts
                }
            },
            _ => seg_from(lines, i + 1, buffer.push(lines[i]), parts, finalize),
        }
    }
}

/// The parts of `content`: its newline-separated lines, cut at artifact
/// fences.
pub open spec fn spec_segment(content: Seq<char>, finalize: bool) -> Seq<PartView> {
    seg_from(split(content, '\n'), 0, Seq::empty(), Seq::empty(), finalize)
}

fn code_block_vec(source: &[char], oversized: bool, closed: bool) -> (r: Vec<char>)
    ensures
        r@ == code_block(source@, oversized, closed),
{
    let mut r: Vec<char> = Vec::new();
    r.push('`');
    r.push('`');
    r.push('`');
    if oversized {
        r.push('t');
        r.push('e');
        r.push('x');
        r.push('t');
    } else {
        r.push('h');
        r.push('t');
        r.push('m');
        r.push('l');
    }
    r.push('\n');
    extend(&mut r, source);
    if closed {
        r.push('\n');
        r.push('`');
        r.push('`');
        r.push('`');
    }
    assert(r@ =~= code_block(source@, oversized, closed));
    r
}

/// What every emitted part satisfies: an artifact carries an artifact
/// language tag and fits the size cap; a text part is never blank.
pub open spec fn part_ok(p: PartView) -> bool {
    &&& p.kind == PartKind::Artifact ==> (p.lang matches Some(l) && artifact_lang(l) && utf8_len(
        p.content,
    ) <= MAX_ARTIFACT_BYTES)
    &&& p.kind == PartKind::Text ==> trim(p.content).len() > 0
}

/// Every part is well formed; every part but the last is closed, and when
/// finalizing all of them are.
pub open spec fn parts_ok(parts: Seq<PartView>, finalize: bool) -> bool {
    &&& forall|k: int| 0 <= k < parts.len() ==> part_ok(#[trigger] parts[k])
    &&& forall|k: int| 0 <= k < parts.len() - 1 ==> (#[trigger] parts[k]).closed
    &&& finalize ==> forall|k: int| 0 <= k < parts.len() ==> (#[trigger] parts[k]).closed
}

proof fn lemma_flush_ok(parts: Seq<PartView>, buffer: Seq<Seq<char>>, finalize: bool)
    requires
        parts_ok(parts, finalize),
        buffer.len() > 0 ==> forall|k: int| 0 <= k < parts.len() ==> (#[trigger] parts[k]).closed,
    ensures
        parts_ok(flush(parts, buffer), finalize),
        buffer.len() > 0 ==> forall|k: int|
            0 <= k < flush(parts, buffer).len() ==> (#[trigger] flush(parts, buffer)[k]).closed,
{
    if buffer.len() > 0 {
        let f = flush(parts, buffer);
        assert forall|k: int| 0 <= k < f.len() implies part_ok(#[trigger] f[k]) by {
            if k < parts.len() {
                assert(f[k] == parts[k]);
            }
        }
        assert forall|k: int| 0 <= k < f.len() implies (#[trigger] f[k]).closed by {
            if k < parts.len() {
                assert(f[k] == parts[k]);
            }
        }
    }
}

proof fn lemma_artifact_part_ok(source: Seq<char>, lang: Seq<char>, closed: bool, finalize: bool)
    requires
        artifact_lang(lang),
    ensures
        part_ok(artifact_part(source, lang, closed, finalize)),
        finalize ==> artifact_part(source, lang, closed, finalize).closed,
        artifact_part(source, lang, closed, finalize).closed || closed == false,
{
    let oversized = utf8_len(source) > MAX_ARTIFACT_BYTES;
    if oversized || (finalize && !closed) {
        let b = code_block(source, oversized, closed);
        assert(b[0] == '`');
        assert(trim_start_by(b, Strip::Whitespace) == b);
        lemma_trim_end_keeps(b, Strip::Whitespace);
    }
}

proof fn lemma_seg_from_ok(
    lines: Seq<Seq<char>>,
    i: int,
    buffer: Seq<Seq<char>>,
    parts: Seq<PartView>,
    finalize: bool,
)
    requires
        0 <= i,
        parts_ok(parts, finalize),
        parts.len() > 0 && !parts.last().closed ==> i >= lines.len() && buffer.len() == 0,
    ensures
        parts_ok(seg_from(lines, i, buffer, parts, finalize), finalize),
    decreases lines.len() - i,
{
    if i >= lines.len() {
        lemma_flush_ok(parts, buffer, finalize);
        let f = flush(parts, buffer);
        let r = finish(f, finalize);
        assert forall|k: int| 0 <= k < r.len() implies part_ok(#[trigger] r[k]) by {
            assert(part_ok(f[k]));
        }
        assert forall|k: int| 0 <= k < r.len() - 1 implies (#[trigger] r[k]).closed by {
            assert(f[k].closed);
        }
    } else {
        match fence_opener(lines[i]) {
            Some((n, lang)) if artifact_lang(lang) => {
                let j = body_end(lines, i + 1, n);
                lemma_body_end(lines, i + 1, n);
                let closed = j < lines.len();
                let source = join(lines.subrange(i + 1, j), seq!['\n']);
                let next = if closed {
                    j + 1
                } else {
                    j
                };
                if i < next <= lines.len() {
                    lemma_flush_ok(parts, buffer, finalize);
                    let f = flush(parts, buffer);
                    let a = artifact_part(source, lang, closed, finalize);
                    lemma_artifact_part_ok(source, lang, closed, finalize);
                    let g = f.push(a);
                    assert forall|k: int| 0 <= k < g.len() implies part_ok(#[trigger] g[k]) by {
                        if k < f.len() {
                            assert(g[k] == f[k]);
                        }
                    }
                    assert forall|k: int| 0 <= k < g.len() - 1 implies (#[trigger] g[k]).closed by {
                        assert(g[k] == f[k]);
                        if f.len() > 0 && k == f.len() - 1 && buffer.len() == 0 {
                            assert(f == parts);
                        }
                    }
                    if finalize {
                        assert forall|k: int| 0 <= k < g.len() implies (#[trigger] g[k]).closed by {
                            if k < f.len() {
                                assert(g[k] == f[k]);
                            }
                        }
                    }
                    lemma_seg_from_ok(lines, next, Seq::empty(), g, finalize);
                }
            },
            _ => {
                lemma_seg_from_ok(lines, i + 1, buffer.push(lines[i]), parts, finalize);
            },
        }
    }
}

/// Split `content` into ordered parts. When `finalize` is true the content is
/// complete: an artifact whose fence never closed is downgraded to a code
/// block, and the trailing part is marked closed.
pub fn segment(content: &str, finalize: bool) -> (parts: Vec<MessagePart>)
    ensures
        part_views(parts@) == spec_segment(content@, finalize),
        parts_ok(part_views(parts@), finalize),
{
    let chars = chars_of(content);
    let lines = split_on(&chars, '\n');
    let ghost ls = views(lines@);
    let mut parts: Vec<MessagePart> = Vec::new();
    let mut buffer: Vec<Vec<char>> = Vec::new();
    let mut i: usize = 0;
    assert(part_views(parts@) =~= Seq::<PartView>::empty());
    assert(views(buffer@) =~= Seq::<Seq<char>>::empty());
    while i < lines.len()
        invariant
            i <= lines.len(),
            ls == views(lines@),
            ls == split(content@, '\n'),
            seg_from(ls, i as int, views(buffer@), part_views(parts@), finalize) == spec_segment(
                content@,
                finalize,
            ),
        decreases lines.len() - i,
    {
        assert(ls[i as int] == lines@[i as int]@);
        let opened = fence_open(&lines[i]);
        let is_artifact = match &opened {
            Some((_, lang)) => is_artifact_lang(lang),
            None => false,
        };
        if !is_artifact {
            let ghost before = views(buffer@);
            buffer.push(copy_chars(&lines[i]));
            assert(views(buffer@) =~= before.push(ls[i as int]));
            i += 1;
        } else {
            let (n, lang) = opened.unwrap();
            push_text(&mut parts, &mut buffer);
            assert(views(buffer@) =~= Seq::<Seq<char>>::empty());
            let mut j = i + 1;
            while j < lines.len() && !is_fence_close(&lines[j], n)
                invariant
                    i < j <= lines.len(),
                    ls == views(lines@),
                    body_end(ls, i + 1, n as nat) == body_end(ls, j as int, n as nat),
                decreases lines.len() - j,
            {
                assert(ls[j as int] == lines@[j as int]@);
                j += 1;
            }
            if j < lines.len() {
                assert(ls[j as int] == lines@[j as int]@);
            }
            let closed = j < lines.len();
            let nl = ['\n'];
            let source = join_range(&lines, i + 1, j, &nl);
            assert(nl@ == seq!['\n']);
            let oversized = utf8_len_exceeds(&source, MAX_ARTIFACT_BYTES);
            let ghost before = part_views(parts@);
            let part = if oversized || (finalize && !closed) {
                let block = code_block_vec(&source, oversized, closed);
                MessagePart::text(string_of(&block), closed || finalize)
            } else {
                let p = MessagePart {
                    kind: PartKind::Artifact,
                    lang: Some(string_of(&lang)),
                    content: string_of(&source),
                    closed,
                };
                p
            };
            assert(part@ == artifact_part(source@, lang@, closed, finalize));
            parts.push(part);
            assert(part_views(parts@) =~= before.push(part@));
            i = if closed {
                j + 1
            } else {
                j
            };
        }
    }
    proof {
        lemma_seg_from_ok(views(lines@), 0, Seq::empty(), Seq::empty(), finalize);
    }
    push_text(&mut parts, &mut buffer);
    if !finalize && parts.len() > 0 && parts[parts.len() - 1].kind == PartKind::Text {
        let ghost before = part_views(parts@);
        let mut last = parts.pop().unwrap();
        assert(before.last() == last@);
        last.closed = false;
        parts.push(last);
        assert(part_views(parts@) =~= before.update(
            before.len() - 1,
            PartView { closed: false, ..before.last() },
        ));
    }
    parts
}

} // verus!
