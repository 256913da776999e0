//! The text-processing builtins of the shell (`grep`, `head`, `tail`, `wc`)
//! and the operators of `test`, on text already read.
use vstd::prelude::*;

use crate::ocr::decimal_text;
use crate::shell::builtins::{
    arg_views, int_cmp, int_op_holds, parse_i64, spec_split_flags, split_flags, IntOp,
};
use crate::skills::push_str;
use crate::static_skills::{lowercase, to_lowercase};
use crate::text::{
    chars_of, contains, contains_seq, extend, join, lines, lines_of, str_is, string_of, utf8_len,
    views,
};
use crate::titles::{split_whitespace, words};

verus! {

broadcast use vstd::string::group_string_axioms;

// ---------------------------------------------------------------------------
// grep
// ---------------------------------------------------------------------------

/// The options of `grep`.
#[derive(Clone, Copy, Debug, PartialEq, Eq, Structural)]
pub struct GrepOptions {
    pub ignore_case: bool,
    pub invert: bool,
    pub number: bool,
}

/// The options set by the flag letters `flags`.
pub open spec fn grep_options_of(flags: Seq<char>) -> GrepOptions {
    GrepOptions {
        ignore_case: flags.contains('i'),
        invert: flags.contains('v'),
        number: flags.contains('n'),
    }
}

pub fn has_char(v: &[char], c: char) -> (r: bool)
    ensures
        r == v@.contains(c),
{
    let mut i: usize = 0;
    while i < v.len()
        invariant
            i <= v.len(),
            forall|j: int| 0 <= j < i ==> v@[j] != c,
        decreases v.len() - i,
    {
        if v[i] == c {
            return true;
        }
        i += 1;
    }
    false
}

/// Splits `grep`'s arguments into its options and its operands (the
/// pattern, then the files).
pub fn grep_args(args: &[String]) -> (r: (GrepOptions, Vec<String>))
    ensures
        r.0 == grep_options_of(spec_split_flags(arg_views(args@)).0),
        arg_views(r.1@) == spec_split_flags(arg_views(args@)).1,
{
    let (flags, rest) = split_flags(args);
    let fv = chars_of(flags.as_str());
    (
        GrepOptions {
            ignore_case: has_char(fv.as_slice(), 'i'),
            invert: has_char(fv.as_slice(), 'v'),
            number: has_char(fv.as_slice(), 'n'),
        },
        rest,
    )
}

/// Whether `line` is selected.
pub open spec fn line_selected(line: Seq<char>, needle: Seq<char>, opts: GrepOptions) -> bool {
    let hay = if opts.ignore_case {
        lowercase(line)
    } else {
        line
    };
    contains_seq(hay, needle) != opts.invert
}

/// What `grep` prints for the selected line number `idx` (from 0).
pub open spec fn grep_line(
    name: Seq<char>,
    idx: int,
    line: Seq<char>,
    opts: GrepOptions,
    multi: bool,
) -> Seq<char> {
    (if multi {
        name + seq![':']
    } else {
        Seq::empty()
    }) + (if opts.number {
        decimal_text((idx + 1) as nat) + seq![':']
    } else {
        Seq::empty()
    }) + line + seq!['\n']
}

/// The output for the lines `ls` of one source.
pub open spec fn grep_lines(
    name: Seq<char>,
    ls: Seq<Seq<char>>,
    needle: Seq<char>,
    opts: GrepOptions,
    multi: bool,
) -> Seq<char>
    decreases ls.len(),
{
    if ls.len() == 0 {
        Seq::empty()
    } else {
        let i = ls.len() - 1;
        grep_lines(name, ls.drop_last(), needle, opts, multi) + if line_selected(
            ls.last(),
            needle,
            opts,
        ) {
            grep_line(name, i, ls.last(), opts, multi)
        } else {
            Seq::empty()
        }
    }
}

/// Some line of `ls` is selected.
pub open spec fn any_selected(ls: Seq<Seq<char>>, needle: Seq<char>, opts: GrepOptions) -> bool {
    exists|i: int| 0 <= i < ls.len() && #[trigger] line_selected(ls[i], needle, opts)
}

/// The output for all sources, each a name and a text.
pub open spec fn grep_sources(
    sources: Seq<(Seq<char>, Seq<char>)>,
    needle: Seq<char>,
    opts: GrepOptions,
    multi: bool,
) -> Seq<char>
    decreases sources.len(),
{
    if sources.len() == 0 {
        Seq::empty()
    } else {
        grep_sources(sources.drop_last(), needle, opts, multi) + grep_lines(
            sources.last().0,
            lines(sources.last().1),
            needle,
            opts,
            multi,
        )
    }
}

pub open spec fn source_views(s: Seq<(String, String)>) -> Seq<(Seq<char>, Seq<char>)> {
    s.map_values(|p: (String, String)| (p.0@, p.1@))
}

/// The needle `grep` looks for: the pattern, lowercased when case is
/// ignored.
pub open spec fn grep_needle(pattern: Seq<char>, opts: GrepOptions) -> Seq<char> {
    if opts.ignore_case {
        lowercase(pattern)
    } else {
        pattern
    }
}

/// The lines of `sources` that `grep` selects, as it prints them (with the
/// source name when there are several, and the line number under `-n`),
/// and whether any line was selected.
pub fn grep_text(pattern: &str, sources: &[(String, String)], opts: GrepOptions) -> (r: (
    String,
    bool,
))
    ensures
        r.0@ == grep_sources(
            source_views(sources@),
            grep_needle(pattern@, opts),
            opts,
            sources@.len() > 1,
        ),
        r.1 == exists|k: int|
            0 <= k < sources@.len() && any_selected(
                lines(#[trigger] sources@[k].1@),
                grep_needle(pattern@, opts),
                opts,
            ),
{
    let needle_s = if opts.ignore_case {
        to_lowercase(pattern)
    } else {
        pattern.to_owned()
    };
    let needle = chars_of(needle_s.as_str());
    let ghost nv = needle@;
    let multi = sources.len() > 1;
    let mut out: Vec<char> = Vec::new();
    let mut matched = false;
    let mut k: usize = 0;
    let ghost sv = source_views(sources@);
    while k < sources.len()
        invariant
            k <= sources.len(),
            sv == source_views(sources@),
            nv == needle@,
            nv == grep_needle(pattern@, opts),
            multi == (sources@.len() > 1),
            out@ == grep_sources(sv.take(k as int), nv, opts, multi),
            matched == exists|q: int|
                0 <= q < k && any_selected(lines(#[trigger] sources@[q].1@), nv, opts),
        decreases sources.len() - k,
    {
        let (name, content) = &sources[k];
        let ls = lines_of(chars_of(content.as_str()).as_slice());
        let ghost lv = views(ls@);
        let ghost before = out@;
        let mut i: usize = 0;
        let mut hit = false;
        while i < ls.len()
            invariant
                i <= ls.len(),
                lv == views(ls@),
                lv == lines(content@),
                nv == needle@,
                out@ == before + grep_lines(name@, lv.take(i as int), nv, opts, multi),
                hit == any_selected(lv.take(i as int), nv, opts),
            decreases ls.len() - i,
        {
            let line_s = string_of(ls[i].as_slice());
            let hay = if opts.ignore_case {
                chars_of(to_lowercase(line_s.as_str()).as_str())
            } else {
                crate::text::copy_chars(ls[i].as_slice())
            };
            let sel = contains(hay.as_slice(), needle.as_slice()) != opts.invert;
            let ghost prev = out@;
            assert(lv.take(i + 1).drop_last() == lv.take(i as int));
            assert(lv.take(i + 1).last() == ls@[i as int]@);
            if sel {
                if multi {
                    extend(&mut out, chars_of(name.as_str()).as_slice());
                    out.push(':');
                }
                if opts.number {
                    let num = crate::ocr::decimal_string(i + 1);
                    extend(&mut out, chars_of(num.as_str()).as_slice());
                    out.push(':');
                }
                extend(&mut out, ls[i].as_slice());
                out.push('\n');
                assert(out@ =~= prev + grep_line(name@, i as int, ls@[i as int]@, opts, multi));
            }
            proof {
                let t = lv.take(i + 1);
                if sel {
                    assert(line_selected(t[i as int], nv, opts));
                }
                if any_selected(t, nv, opts) && !any_selected(lv.take(i as int), nv, opts) {
                    let j = choose|j: int| 0 <= j < t.len() && #[trigger] line_selected(t[j], nv, opts);
                    if j < i {
                        assert(lv.take(i as int)[j] == t[j]);
                    }
                }
                if any_selected(lv.take(i as int), nv, opts) {
                    let j = choose|j: int| 0 <= j < i && #[trigger] line_selected(lv.take(i as int)[j], nv, opts);
                    assert(t[j] == lv.take(i as int)[j]);
                }
            }
            hit = hit || sel;
            i += 1;
        }
        assert(lv.take(ls.len() as int) == lv);
        assert(sv.take(k + 1).drop_last() == sv.take(k as int));
        assert(sv.take(k + 1).last() == (name@, content@));
        proof {
            if hit && !matched {
                assert(any_selected(lines(sources@[k as int].1@), nv, opts));
            }
        }
        matched = matched || hit;
        k += 1;
    }
    assert(sv.take(sources.len() as int) == sv);
    (string_of(out.as_slice()), matched)
}

// ---------------------------------------------------------------------------
// head, tail, wc
// ---------------------------------------------------------------------------

/// The lines `head` (or `tail`) keeps, joined, with a final newline when
/// anything is kept.
pub open spec fn spec_head_tail(content: Seq<char>, count: nat, head: bool) -> Seq<char> {
    let ls = lines(content);
    let selected = if head {
        ls.take(if count <= ls.len() {
            count as int
        } else {
            ls.len() as int
        })
    } else {
        ls.skip(if count <= ls.len() {
            ls.len() - count
        } else {
            0
        })
    };
    let out = join(selected, "\n"@);
    if out.len() > 0 {
        out + seq!['\n']
    } else {
        out
    }
}

/// The first (or last) `count` lines of `content`.
pub fn head_tail_text(content: &str, count: usize, head: bool) -> (r: String)
    ensures
        r@ == spec_head_tail(content@, count as nat, head),
{
    let ls = lines_of(chars_of(content).as_slice());
    let n = ls.len();
    let (from, to) = if head {
        (0, if count <= n {
            count
        } else {
            n
        })
    } else {
        (if count <= n {
            n - count
        } else {
            0
        }, n)
    };
    let nl = ['\n'];
    proof {
        reveal_strlit("\n");
        assert(nl@ =~= "\n"@);
        let lv = views(ls@);
        if head {
            assert(lv.subrange(from as int, to as int) == lv.take(to as int));
        } else {
            assert(lv.subrange(from as int, to as int) == lv.skip(from as int));
        }
    }
    let mut out = crate::text::join_range(&ls, from, to, nl.as_slice());
    if out.len() > 0 {
        out.push('\n');
    }
    string_of(out.as_slice())
}

/// What `wc` prints, by its flag letters.
pub open spec fn spec_wc(content: Seq<char>, flags: Seq<char>) -> Seq<char> {
    let l = decimal_text(lines(content).len());
    let w = decimal_text(words(content).len());
    let c = decimal_text(utf8_len(content));
    if flags.contains('l') {
        l + seq!['\n']
    } else if flags.contains('w') {
        w + seq!['\n']
    } else if flags.contains('c') {
        c + seq!['\n']
    } else {
        l + seq![' '] + w + seq![' '] + c + seq!['\n']
    }
}

/// The line, word and byte counts of `content`, as `wc` prints them.
pub fn wc_text(content: &str, flags: &str) -> (r: String)
    ensures
        r@ == spec_wc(content@, flags@),
{
    let cs = chars_of(content);
    let fv = chars_of(flags);
    let ls = lines_of(cs.as_slice());
    let ws = split_whitespace(cs.as_slice());
    let bytes = crate::text::byte_len(content);
    let l = crate::ocr::decimal_string(ls.len());
    let w = crate::ocr::decimal_string(ws.len());
    let c = crate::ocr::decimal_string(bytes);
    let mut out: Vec<char> = Vec::new();
    if has_char(fv.as_slice(), 'l') {
        extend(&mut out, chars_of(l.as_str()).as_slice());
    } else if has_char(fv.as_slice(), 'w') {
        extend(&mut out, chars_of(w.as_str()).as_slice());
    } else if has_char(fv.as_slice(), 'c') {
        extend(&mut out, chars_of(c.as_str()).as_slice());
    } else {
        extend(&mut out, chars_of(l.as_str()).as_slice());
        out.push(' ');
        extend(&mut out, chars_of(w.as_str()).as_slice());
        out.push(' ');
        extend(&mut out, chars_of(c.as_str()).as_slice());
    }
    out.push('\n');
    string_of(out.as_slice())
}

// ---------------------------------------------------------------------------
// test
// ---------------------------------------------------------------------------

/// What `test -e`, `-f` and `-d` ask of a path.
#[derive(Clone, Copy, Debug, PartialEq, Eq, Structural)]
pub enum StatQuery {
    Exists,
    IsFile,
    IsDir,
}

/// Whether a stat result (`None`: missing; `Some(is_dir)`) answers yes.
pub open spec fn spec_stat_answer(q: StatQuery, stat: Option<bool>) -> bool {
    match q {
        StatQuery::Exists => stat is Some,
        StatQuery::IsFile => stat == Some(false),
        StatQuery::IsDir => stat == Some(true),
    }
}

pub fn stat_answer(q: StatQuery, stat: Option<bool>) -> (r: bool)
    ensures
        r == spec_stat_answer(q, stat),
{
    match q {
        StatQuery::Exists => stat.is_some(),
        StatQuery::IsFile => match stat {
            Some(d) => !d,
            None => false,
        },
        StatQuery::IsDir => match stat {
            Some(d) => d,
            None => false,
        },
    }
}

/// How `test` proceeds: with its answer, by asking about a path first, or
/// with a usage error.
#[derive(Clone, Debug)]
pub enum TestStep {
    Done(bool),
    Stat { path: String, query: StatQuery },
    Fail(String),
}

pub open spec fn int_test_op(op: Seq<char>) -> Option<IntOp> {
    if op == "-eq"@ {
        Some(IntOp::Eq)
    } else if op == "-ne"@ {
        Some(IntOp::Ne)
    } else if op == "-lt"@ {
        Some(IntOp::Lt)
    } else if op == "-le"@ {
        Some(IntOp::Le)
    } else if op == "-gt"@ {
        Some(IntOp::Gt)
    } else if op == "-ge"@ {
        Some(IntOp::Ge)
    } else {
        None
    }
}

/// Whether the step is the answer `b`.
pub open spec fn done_with(r: TestStep, b: bool) -> bool {
    r matches TestStep::Done(x) && x == b
}

/// Whether the step is the failure with message `m`.
pub open spec fn fails_with(r: TestStep, m: Seq<char>) -> bool {
    r matches TestStep::Fail(x) && x@ == m
}

/// The step `test` takes on its operands.
pub open spec fn spec_test_operands(a: Seq<Seq<char>>, r: TestStep) -> bool {
    if a.len() == 0 {
        done_with(r, false)
    } else if a.len() == 1 {
        done_with(r, a[0].len() > 0)
    } else if a.len() == 2 {
        if a[0] == "-z"@ {
            done_with(r, a[1].len() == 0)
        } else if a[0] == "-n"@ {
            done_with(r, a[1].len() > 0)
        } else if a[0] == "-e"@ {
            r matches TestStep::Stat { path, query } && path@ == a[1] && query == StatQuery::Exists
        } else if a[0] == "-f"@ {
            r matches TestStep::Stat { path, query } && path@ == a[1] && query == StatQuery::IsFile
        } else if a[0] == "-d"@ {
            r matches TestStep::Stat { path, query } && path@ == a[1] && query == StatQuery::IsDir
        } else {
            fails_with(r, "test: "@ + a[0] + ": unary operator expected"@)
        }
    } else if a.len() == 3 {
        if a[1] == "="@ || a[1] == "=="@ {
            done_with(r, a[0] == a[2])
        } else if a[1] == "!="@ {
            done_with(r, a[0] != a[2])
        } else if int_test_op(a[1]) is Some {
            done_with(
                r,
                match (parse_i64(a[0]), parse_i64(a[2])) {
                    (Some(x), Some(y)) => int_op_holds(int_test_op(a[1])->0, x, y),
                    _ => false,
                },
            )
        } else {
            fails_with(r, "test: "@ + a[1] + ": binary operator expected"@)
        }
    } else {
        fails_with(r, "test: too many arguments"@)
    }
}

/// The step `test` (or `[`) takes on its arguments.
pub open spec fn spec_test_step(bracket: bool, args: Seq<Seq<char>>, r: TestStep) -> bool {
    if bracket {
        if args.len() == 0 || args.last() != "]"@ {
            fails_with(r, "[: missing `]'"@)
        } else {
            spec_test_operands(args.drop_last(), r)
        }
    } else {
        spec_test_operands(args, r)
    }
}

fn arg_is(s: &String, lit: &str) -> (r: bool)
    ensures
        r == (s@ == lit@),
{
    str_is(lit, chars_of(s.as_str()).as_slice())
}

fn message3(a: &str, b: &str, c: &str) -> (r: String)
    ensures
        r@ == a@ + b@ + c@,
{
    let mut s = a.to_owned();
    push_str(&mut s, b);
    push_str(&mut s, c);
    s
}

fn test_operands(a: &[String]) -> (r: TestStep)
    ensures
        spec_test_operands(arg_views(a@), r),
{
    let ghost av = arg_views(a@);
    if a.len() == 0 {
        return TestStep::Done(false);
    }
    assert(av[0] == a@[0]@);
    if a.len() == 1 {
        return TestStep::Done(!a[0].as_str().is_empty());
    }
    assert(av[1] == a@[1]@);
    if a.len() == 2 {
        return if arg_is(&a[0], "-z") {
            TestStep::Done(a[1].as_str().is_empty())
        } else if arg_is(&a[0], "-n") {
            TestStep::Done(!a[1].as_str().is_empty())
        } else if arg_is(&a[0], "-e") {
            TestStep::Stat { path: a[1].clone(), query: StatQuery::Exists }
        } else if arg_is(&a[0], "-f") {
            TestStep::Stat { path: a[1].clone(), query: StatQuery::IsFile }
        } else if arg_is(&a[0], "-d") {
            TestStep::Stat { path: a[1].clone(), query: StatQuery::IsDir }
        } else {
            TestStep::Fail(message3("test: ", a[0].as_str(), ": unary operator expected"))
        };
    }
    if a.len() == 3 {
        assert(av[2] == a@[2]@);
        let op = &a[1];
        let int_op = if arg_is(op, "-eq") {
            Some(IntOp::Eq)
        } else if arg_is(op, "-ne") {
            Some(IntOp::Ne)
        } else if arg_is(op, "-lt") {
            Some(IntOp::Lt)
        } else if arg_is(op, "-le") {
            Some(IntOp::Le)
        } else if arg_is(op, "-gt") {
            Some(IntOp::Gt)
        } else if arg_is(op, "-ge") {
            Some(IntOp::Ge)
        } else {
            None
        };
        return if arg_is(op, "=") || arg_is(op, "==") {
            TestStep::Done(crate::text::chars_eq(chars_of(a[0].as_str()).as_slice(), chars_of(a[2].as_str()).as_slice()))
        } else if arg_is(op, "!=") {
            TestStep::Done(!crate::text::chars_eq(chars_of(a[0].as_str()).as_slice(), chars_of(a[2].as_str()).as_slice()))
        } else {
            match int_op {
                Some(o) => TestStep::Done(int_cmp(a[0].as_str(), a[2].as_str(), o)),
                None => TestStep::Fail(message3("test: ", op.as_str(), ": binary operator expected")),
            }
        };
    }
    TestStep::Fail("test: too many arguments".to_owned())
}

/// The step `test` (called as `[` when `bracket`) takes on `args`.
pub fn test_step(bracket: bool, args: &[String]) -> (r: TestStep)
    ensures
        spec_test_step(bracket, arg_views(args@), r),
{
    if bracket {
        if args.len() == 0 || !arg_is(&args[args.len() - 1], "]") {
            return TestStep::Fail("[: missing `]'".to_owned());
        }
        let ghost av = arg_views(args@);
        assert(arg_views(args@.subrange(0, args.len() - 1)) =~= av.drop_last());
        test_operands(&args[0..args.len() - 1])
    } else {
        test_operands(args)
    }
}

} // verus!
