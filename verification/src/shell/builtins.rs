//! Argument handling and path arithmetic of the shell's builtin commands.
use vstd::prelude::*;

use crate::text::{chars_of, extend, has_prefix, join, slice_vec, split, split_on, str_is, string_of, views};
use crate::vfs::{non_empty, path_segments};

verus! {

broadcast use vstd::string::group_string_axioms;

/// The views of a list of strings.
pub open spec fn arg_views(v: Seq<String>) -> Seq<Seq<char>> {
    v.map_values(|s: String| s@)
}

// ---------------------------------------------------------------------------
// echo and flags.
// ---------------------------------------------------------------------------

pub open spec fn spec_echo(args: Seq<Seq<char>>) -> Seq<char> {
    if args.len() > 0 && args[0] == "-n"@ {
        join(args.skip(1), " "@)
    } else {
        join(args, " "@) + seq!['\n']
    }
}

/// Joins the views of `args[from..]` with single spaces.
fn join_args(args: &[String], from: usize) -> (r: Vec<char>)
    requires
        from <= args.len(),
    ensures
        r@ == join(arg_views(args@).skip(from as int), " "@),
{
    let mut r: Vec<char> = Vec::new();
    let mut i = from;
    let ghost av = arg_views(args@);
    assert(av.subrange(from as int, from as int) =~= Seq::<Seq<char>>::empty());
    while i < args.len()
        invariant
            from <= i <= args.len(),
            av == arg_views(args@),
            r@ == join(av.subrange(from as int, i as int), " "@),
        decreases args.len() - i,
    {
        let ghost prev = av.subrange(from as int, i as int);
        let ghost next = av.subrange(from as int, i + 1);
        assert(next.drop_last() =~= prev);
        assert(next.last() == args@[i as int]@);
        if i > from {
            r.push(' ');
            proof {
                reveal_strlit(" ");
            }
            assert(r@ =~= join(prev, " "@) + " "@);
        } else {
            assert(next =~= seq![args@[i as int]@]);
        }
        let a = chars_of(args[i].as_str());
        extend(&mut r, a.as_slice());
        i += 1;
    }
    assert(av.subrange(from as int, args.len() as int) =~= av.skip(from as int));
    r
}

/// `echo`: the arguments joined by spaces, with a newline unless the first
/// argument is `-n`.
pub fn echo(args: &[String]) -> (r: String)
    ensures
        r@ == spec_echo(arg_views(args@)),
{
    let dash_n = ['-', 'n'];
    proof {
        reveal_strlit("-n");
        assert(dash_n@ =~= "-n"@);
    }
    if args.len() > 0 && str_is(args[0].as_str(), dash_n.as_slice()) {
        let out = join_args(args, 1);
        return string_of(out.as_slice());
    }
    let mut out = join_args(args, 0);
    assert(arg_views(args@).skip(0) =~= arg_views(args@));
    out.push('\n');
    string_of(out.as_slice())
}

/// A flag argument: `-` followed by at least one character.
pub open spec fn is_flag(a: Seq<char>) -> bool {
    a.len() > 1 && a[0] == '-'
}

/// The letters of the leading `-x` arguments, and the other arguments.
pub open spec fn spec_split_flags(args: Seq<Seq<char>>) -> (Seq<char>, Seq<Seq<char>>)
    decreases args.len(),
{
    if args.len() == 0 {
        (Seq::empty(), Seq::empty())
    } else {
        let (f, r) = spec_split_flags(args.drop_last());
        let a = args.last();
        if r.len() == 0 && is_flag(a) {
            (f + a.skip(1), r)
        } else {
            (f, r.push(a))
        }
    }
}

/// Collects single-letter flags from leading `-x` arguments; returns the
/// flag letters and the remaining operands.
pub fn split_flags(args: &[String]) -> (r: (String, Vec<String>))
    ensures
        r.0@ == spec_split_flags(arg_views(args@)).0,
        arg_views(r.1@) == spec_split_flags(arg_views(args@)).1,
{
    let mut flags: Vec<char> = Vec::new();
    let mut rest: Vec<String> = Vec::new();
    let mut i: usize = 0;
    let ghost av = arg_views(args@);
    while i < args.len()
        invariant
            i <= args.len(),
            av == arg_views(args@),
            (flags@, arg_views(rest@)) == spec_split_flags(av.take(i as int)),
        decreases args.len() - i,
    {
        assert(av.take(i + 1).drop_last() == av.take(i as int));
        assert(av.take(i + 1).last() == args@[i as int]@);
        let a = chars_of(args[i].as_str());
        if rest.len() == 0 && a.len() > 1 && a[0] == '-' {
            let tail = slice_vec(a.as_slice(), 1, a.len());
            assert(tail@ == a@.skip(1));
            extend(&mut flags, tail.as_slice());
        } else {
            let ghost before = arg_views(rest@);
            rest.push(args[i].clone());
            assert(arg_views(rest@) =~= before.push(a@));
        }
        i += 1;
    }
    assert(av.take(args.len() as int) == av);
    (string_of(flags.as_slice()), rest)
}

// ---------------------------------------------------------------------------
// Numbers.
// ---------------------------------------------------------------------------

pub open spec fn is_digit(c: char) -> bool {
    '0' <= c && c <= '9'
}

pub open spec fn all_digits(s: Seq<char>) -> bool {
    forall|i: int| 0 <= i < s.len() ==> is_digit(#[trigger] s[i])
}

/// The decimal value of a digit string.
pub open spec fn decimal(s: Seq<char>) -> nat
    decreases s.len(),
{
    if s.len() == 0 {
        0
    } else {
        decimal(s.drop_last()) * 10 + ((s.last() as u32) - 48) as nat
    }
}

/// `usize::from_str`: an optional `+`, then at least one decimal digit, for a
/// value that fits.
pub open spec fn parse_usize(s: Seq<char>) -> Option<usize> {
    let d = if s.len() > 0 && s[0] == '+' {
        s.skip(1)
    } else {
        s
    };
    if d.len() > 0 && all_digits(d) && decimal(d) <= usize::MAX {
        Some(decimal(d) as usize)
    } else {
        None
    }
}

/// `i64::from_str`: an optional sign, then at least one decimal digit, for
/// a value in range.
pub open spec fn parse_i64(s: Seq<char>) -> Option<i64> {
    let neg = s.len() > 0 && s[0] == '-';
    let d = if s.len() > 0 && (s[0] == '+' || s[0] == '-') {
        s.skip(1)
    } else {
        s
    };
    if d.len() == 0 || !all_digits(d) {
        None
    } else if neg {
        if decimal(d) <= 0x8000_0000_0000_0000 {
            Some((0 - decimal(d)) as i64)
        } else {
            None
        }
    } else if decimal(d) <= i64::MAX {
        Some(decimal(d) as i64)
    } else {
        None
    }
}

/// The value of the digits `v[from..]`, or `None` when one is not a digit
/// or the value exceeds `max`.
fn digits_value(v: &[char], from: usize, max: u64) -> (r: Option<u64>)
    requires
        from <= v.len(),
        max >= 9,
    ensures
        r matches Some(n) ==> all_digits(v@.skip(from as int)) && n == decimal(v@.skip(from as int))
            && n <= max,
        r is None ==> !all_digits(v@.skip(from as int)) || decimal(v@.skip(from as int)) > max,
{
    let mut acc: u64 = 0;
    let mut i = from;
    assert(v@.subrange(from as int, from as int) =~= Seq::<char>::empty());
    while i < v.len()
        invariant
            from <= i <= v.len(),
            all_digits(v@.subrange(from as int, i as int)),
            acc == decimal(v@.subrange(from as int, i as int)),
            acc <= max,
            max >= 9,
        decreases v.len() - i,
    {
        let ghost pre = v@.subrange(from as int, i as int);
        let ghost next = v@.subrange(from as int, i + 1);
        assert(next.drop_last() =~= pre);
        let c = v[i];
        if !('0' <= c && c <= '9') {
            assert(!all_digits(v@.skip(from as int))) by {
                assert(v@.skip(from as int)[i - from] == c);
            }
            return None;
        }
        let d = (c as u32 - 48) as u64;
        assert(d <= 9);
        assert(all_digits(next)) by {
            assert forall|j: int| 0 <= j < next.len() implies is_digit(#[trigger] next[j]) by {
                if j < pre.len() {
                    assert(next[j] == pre[j]);
                }
            }
        }
        if acc > (max - d) / 10 {
            proof {
                assert(decimal(next) == acc * 10 + d);
                assert(acc * 10 + d > max) by (nonlinear_arith)
                    requires
                        acc > (max - d) / 10,
                        d <= 9,
                        max >= 9,
                ;
                assert(v@.skip(from as int).take(i - from + 1) =~= next);
                if all_digits(v@.skip(from as int)) {
                    lemma_decimal_grows(v@.skip(from as int), i - from + 1);
                }
            }
            return None;
        }
        assert(acc * 10 + d <= max) by (nonlinear_arith)
            requires
                acc <= (max - d) / 10,
                d <= 9,
        ;
        acc = acc * 10 + d;
        i += 1;
    }
    assert(v@.subrange(from as int, v.len() as int) =~= v@.skip(from as int));
    Some(acc)
}

/// The value of a digit string is at least that of its prefixes.
proof fn lemma_decimal_grows(s: Seq<char>, k: int)
    requires
        0 <= k <= s.len(),
        all_digits(s),
    ensures
        decimal(s.take(k)) <= decimal(s),
    decreases s.len() - k,
{
    if k < s.len() {
        lemma_decimal_grows(s, k + 1);
        assert(s.take(k + 1).drop_last() =~= s.take(k));
        assert(is_digit(s[k]));
    } else {
        assert(s.take(k) =~= s);
    }
}

/// Parses a decimal `usize` the way `str::parse` does.
pub fn parse_usize_str(s: &str) -> (r: Option<usize>)
    ensures
        r == parse_usize(s@),
{
    let v = chars_of(s);
    let from: usize = if v.len() > 0 && v[0] == '+' {
        1
    } else {
        0
    };
    assert(from == 0 ==> v@.skip(0) =~= v@);
    if from >= v.len() {
        return None;
    }
    match digits_value(v.as_slice(), from, usize::MAX as u64) {
        Some(n) => Some(n as usize),
        None => None,
    }
}

/// Parses a decimal `i64` the way `str::parse` does.
pub fn parse_i64_str(s: &str) -> (r: Option<i64>)
    ensures
        r == parse_i64(s@),
{
    let v = chars_of(s);
    let neg = v.len() > 0 && v[0] == '-';
    let from: usize = if v.len() > 0 && (v[0] == '+' || v[0] == '-') {
        1
    } else {
        0
    };
    assert(from == 0 ==> v@.skip(0) =~= v@);
    if from >= v.len() {
        return None;
    }
    if neg {
        match digits_value(v.as_slice(), from, 0x8000_0000_0000_0000u64) {
            Some(n) => if n == 0x8000_0000_0000_0000u64 {
                Some(i64::MIN)
            } else {
                Some(-(n as i64))
            },
            None => None,
        }
    } else {
        match digits_value(v.as_slice(), from, i64::MAX as u64) {
            Some(n) => Some(n as i64),
            None => None,
        }
    }
}

/// Integer comparisons of `test`.
#[derive(Clone, Copy, Debug, PartialEq, Eq, Structural)]
pub enum IntOp {
    Eq,
    Ne,
    Lt,
    Le,
    Gt,
    Ge,
}

pub open spec fn int_op_holds(op: IntOp, a: i64, b: i64) -> bool {
    match op {
        IntOp::Eq => a == b,
        IntOp::Ne => a != b,
        IntOp::Lt => a < b,
        IntOp::Le => a <= b,
        IntOp::Gt => a > b,
        IntOp::Ge => a >= b,
    }
}

/// Compares two decimal integers; false when either does not parse.
pub fn int_cmp(a: &str, b: &str, op: IntOp) -> (r: bool)
    ensures
        r == match (parse_i64(a@), parse_i64(b@)) {
            (Some(x), Some(y)) => int_op_holds(op, x, y),
            _ => false,
        },
{
    match (parse_i64_str(a), parse_i64_str(b)) {
        (Some(x), Some(y)) => match op {
            IntOp::Eq => x == y,
            IntOp::Ne => x != y,
            IntOp::Lt => x < y,
            IntOp::Le => x <= y,
            IntOp::Gt => x > y,
            IntOp::Ge => x >= y,
        },
        _ => false,
    }
}

/// The count an argument sets, when it is `-N` or `-nN`.
pub open spec fn count_flag(a: Seq<char>) -> Option<usize> {
    if has_prefix(a, "-n"@) {
        parse_usize(a.skip(2))
    } else if has_prefix(a, "-"@) {
        parse_usize(a.skip(1))
    } else {
        None
    }
}

/// `head`/`tail` arguments from `i` on, with the count and files so far.
pub open spec fn spec_parse_count(args: Seq<Seq<char>>, i: int, count: usize, files: Seq<Seq<char>>) -> (
    usize,
    Seq<Seq<char>>,
)
    decreases args.len() - i,
{
    if i < 0 || i >= args.len() {
        (count, files)
    } else if args[i] == "-n"@ {
        let c = if i + 1 < args.len() && parse_usize(args[i + 1]) is Some {
            parse_usize(args[i + 1])->0
        } else {
            count
        };
        spec_parse_count(
            args,
            if i + 2 <= args.len() {
                i + 2
            } else {
                args.len() as int
            },
            c,
            files,
        )
    } else {
        match count_flag(args[i]) {
            Some(n) => spec_parse_count(args, i + 1, n, files),
            None => spec_parse_count(args, i + 1, count, files.push(args[i])),
        }
    }
}

/// Parses an optional `-n N` (or `-N`) count; returns it and the files.
pub fn parse_count(args: &[String], default: usize) -> (r: (usize, Vec<String>))
    ensures
        (r.0, arg_views(r.1@)) == spec_parse_count(arg_views(args@), 0, default, Seq::empty()),
{
    let ghost av = arg_views(args@);
    let mut count = default;
    let mut files: Vec<String> = Vec::new();
    let mut i: usize = 0;
    assert(arg_views(files@) =~= Seq::<Seq<char>>::empty());
    while i < args.len()
        invariant
            i <= args.len(),
            av == arg_views(args@),
            spec_parse_count(av, 0, default, Seq::empty()) == spec_parse_count(
                av,
                i as int,
                count,
                arg_views(files@),
            ),
        decreases args.len() - i,
    {
        assert(av[i as int] == args@[i as int]@);
        let a = chars_of(args[i].as_str());
        let dash_n0 = ['-', 'n'];
        proof {
            reveal_strlit("-n");
            assert(dash_n0@ =~= "-n"@);
        }
        if crate::text::chars_eq(a.as_slice(), dash_n0.as_slice()) {
            if i + 1 < args.len() {
                assert(av[i + 1] == args@[i + 1]@);
                match parse_usize_str(args[i + 1].as_str()) {
                    Some(n) => {
                        count = n;
                    },
                    None => {},
                }
            }
            if args.len() - i <= 2 {
                i = args.len();
            } else {
                i = i + 2;
            }
        } else {
            let dash_n = ['-', 'n'];
            let dash = ['-'];
            proof {
                reveal_strlit("-n");
                reveal_strlit("-");
                assert(dash_n@ =~= "-n"@);
                assert(dash@ =~= "-"@);
            }
            let found = if crate::text::starts_with(a.as_slice(), dash_n.as_slice()) {
                let rest = slice_vec(a.as_slice(), 2, a.len());
                assert(rest@ == a@.skip(2));
                parse_usize_str(string_of(rest.as_slice()).as_str())
            } else if crate::text::starts_with(a.as_slice(), dash.as_slice()) {
                let rest = slice_vec(a.as_slice(), 1, a.len());
                assert(rest@ == a@.skip(1));
                parse_usize_str(string_of(rest.as_slice()).as_str())
            } else {
                None
            };
            match found {
                Some(n) => {
                    count = n;
                },
                None => {
                    let ghost before = arg_views(files@);
                    files.push(args[i].clone());
                    assert(arg_views(files@) =~= before.push(av[i as int]));
                },
            }
            i += 1;
        }
    }
    (count, files)
}

// ---------------------------------------------------------------------------
// Paths.
// ---------------------------------------------------------------------------

/// One step of path resolution from the segments `s`.
pub open spec fn walk_step(s: Seq<Seq<char>>, p: Seq<char>) -> Seq<Seq<char>> {
    if p.len() == 0 || p == "."@ {
        s
    } else if p == ".."@ {
        if s.len() == 0 {
            s
        } else {
            s.drop_last()
        }
    } else {
        s.push(p)
    }
}

/// The segments reached from `s` by following `parts`.
pub open spec fn walk(s: Seq<Seq<char>>, parts: Seq<Seq<char>>) -> Seq<Seq<char>>
    decreases parts.len(),
{
    if parts.len() == 0 {
        s
    } else {
        walk_step(walk(s, parts.drop_last()), parts.last())
    }
}

/// The segments `path` resolves to from the directory `base`.
pub open spec fn normal_segments(base: Seq<char>, path: Seq<char>) -> Seq<Seq<char>> {
    let start = if has_prefix(path, "/"@) {
        Seq::empty()
    } else {
        path_segments(base)
    };
    walk(start, split(path, '/'))
}

pub open spec fn spec_normalize(base: Seq<char>, path: Seq<char>) -> Seq<char> {
    join(normal_segments(base, path), "/"@)
}

/// Normalizes `path` against `base`, resolving `.` and `..`, into a
/// workspace-relative path with no leading slash (empty for the root).
pub fn normalize(base: &str, path: &str) -> (r: String)
    ensures
        r@ == spec_normalize(base@, path@),
{
    let pv = chars_of(path);
    let slash = ['/'];
    proof {
        reveal_strlit("/");
        assert(slash@ =~= "/"@);
    }
    let mut segs: Vec<Vec<char>> = if crate::text::starts_with(pv.as_slice(), slash.as_slice()) {
        Vec::new()
    } else {
        let bv = chars_of(base);
        let all = split_on(bv.as_slice(), '/');
        keep_non_empty(&all)
    };
    let parts = split_on(pv.as_slice(), '/');
    let ghost pvs = views(parts@);
    let ghost start = views(segs@);
    assert(start =~= (if has_prefix(path@, "/"@) {
        Seq::<Seq<char>>::empty()
    } else {
        path_segments(base@)
    }));
    let mut i: usize = 0;
    while i < parts.len()
        invariant
            i <= parts.len(),
            pvs == views(parts@),
            pvs == split(path@, '/'),
            views(segs@) == walk(start, pvs.take(i as int)),
        decreases parts.len() - i,
    {
        assert(pvs.take(i + 1).drop_last() == pvs.take(i as int));
        assert(pvs.take(i + 1).last() == parts@[i as int]@);
        let p = &parts[i];
        let ghost before = views(segs@);
        if p.len() == 0 || str_is(".", p.as_slice()) {
        } else if str_is("..", p.as_slice()) {
            if segs.len() > 0 {
                segs.pop();
                assert(views(segs@) =~= before.drop_last());
            }
        } else {
            segs.push(crate::text::copy_chars(p.as_slice()));
            assert(views(segs@) =~= before.push(p@));
        }
        i += 1;
    }
    assert(pvs.take(parts.len() as int) == pvs);
    let out = crate::text::join_range(&segs, 0, segs.len(), slash.as_slice());
    assert(views(segs@).subrange(0, segs.len() as int) == views(segs@));
    string_of(out.as_slice())
}

/// The non-empty parts of `all`.
fn keep_non_empty(all: &Vec<Vec<char>>) -> (r: Vec<Vec<char>>)
    ensures
        views(r@) == non_empty(views(all@)),
{
    let ghost av = views(all@);
    let mut out: Vec<Vec<char>> = Vec::new();
    let mut i: usize = 0;
    while i < all.len()
        invariant
            i <= all.len(),
            av == views(all@),
            views(out@) == non_empty(av.take(i as int)),
        decreases all.len() - i,
    {
        assert(av.take(i + 1).drop_last() == av.take(i as int));
        assert(av.take(i + 1).last() == all@[i as int]@);
        if all[i].len() > 0 {
            let ghost before = views(out@);
            out.push(crate::text::copy_chars(all[i].as_slice()));
            assert(views(out@) =~= before.push(all@[i as int]@));
        }
        i += 1;
    }
    assert(av.take(all.len() as int) == av);
    out
}

/// The last index of `c` in `s`.
pub open spec fn last_index(s: Seq<char>, c: char) -> Option<int>
    decreases s.len(),
{
    if s.len() == 0 {
        None
    } else if s.last() == c {
        Some(s.len() - 1)
    } else {
        last_index(s.drop_last(), c)
    }
}

pub proof fn lemma_last_index(s: Seq<char>, c: char)
    ensures
        last_index(s, c) matches Some(i) ==> 0 <= i < s.len() && s[i] == c && forall|j: int|
            i < j < s.len() ==> s[j] != c,
        last_index(s, c) is None ==> forall|j: int| 0 <= j < s.len() ==> s[j] != c,
    decreases s.len(),
{
    if s.len() > 0 && s.last() != c {
        lemma_last_index(s.drop_last(), c);
        assert forall|j: int| 0 <= j < s.len() - 1 implies s[j] == s.drop_last()[j] by {}
    }
}

fn find_last(v: &[char], c: char) -> (r: Option<usize>)
    ensures
        r == (match last_index(v@, c) {
            Some(i) => Some(i as usize),
            None => None::<usize>,
        }),
{
    let mut i = v.len();
    assert(v@.take(i as int) =~= v@);
    while i > 0
        invariant
            i <= v.len(),
            last_index(v@, c) == last_index(v@.take(i as int), c),
        decreases i,
    {
        let ghost t = v@.take(i as int);
        if v[i - 1] == c {
            return Some(i - 1);
        }
        assert(t.drop_last() =~= v@.take(i - 1));
        i -= 1;
    }
    None
}

pub open spec fn spec_split_parent(path: Seq<char>) -> (Seq<char>, Seq<char>) {
    match last_index(path, '/') {
        Some(i) => (path.take(i), path.skip(i + 1)),
        None => (Seq::empty(), path),
    }
}

/// The directory and the name of `path`, split at its last `/`.
pub fn split_parent(path: &str) -> (r: (String, String))
    ensures
        (r.0@, r.1@) == spec_split_parent(path@),
{
    let v = chars_of(path);
    proof {
        lemma_last_index(v@, '/');
    }
    match find_last(v.as_slice(), '/') {
        Some(i) => {
            let a = slice_vec(v.as_slice(), 0, i);
            let b = slice_vec(v.as_slice(), i + 1, v.len());
            assert(a@ == v@.take(i as int));
            assert(b@ == v@.skip(i + 1));
            (string_of(a.as_slice()), string_of(b.as_slice()))
        },
        None => (String::new(), path.to_owned()),
    }
}

/// The part of `path` after its last `/`.
pub fn basename(path: &str) -> (r: String)
    ensures
        r@ == spec_split_parent(path@).1,
{
    let (_, name) = split_parent(path);
    name
}

/// A segment a normalized path may hold: not empty, `.` or `..`, and
/// without a slash.
pub open spec fn clean_segment(p: Seq<char>) -> bool {
    p.len() > 0 && p != "."@ && p != ".."@ && forall|i: int| 0 <= i < p.len() ==> #[trigger] p[i] != '/'
}

pub open spec fn all_clean(segs: Seq<Seq<char>>) -> bool {
    forall|i: int| 0 <= i < segs.len() ==> clean_segment(#[trigger] segs[i])
}

/// No part of a split holds the separator.
proof fn lemma_split_parts(s: Seq<char>, sep: char)
    ensures
        forall|k: int, i: int|
            0 <= k < split(s, sep).len() && 0 <= i < split(s, sep)[k].len() ==> #[trigger] split(
                s,
                sep,
            )[k][i] != sep,
    decreases s.len(),
{
    if s.len() > 0 {
        lemma_split_parts(s.drop_last(), sep);
        crate::text::lemma_split_nonempty(s.drop_last(), sep);
        let h = split(s.drop_last(), sep);
        if s.last() != sep {
            let r = split(s, sep);
            assert forall|k: int, i: int| 0 <= k < r.len() && 0 <= i < r[k].len() implies #[trigger] r[k][i] != sep by {
                if k < h.len() - 1 {
                    assert(r[k] == h[k]);
                } else {
                    assert(r[k] == h.last().push(s.last()));
                    if i < h.last().len() {
                        assert(r[k][i] == h[h.len() - 1][i]);
                    }
                }
            }
        } else {
            let r = split(s, sep);
            assert forall|k: int, i: int| 0 <= k < r.len() && 0 <= i < r[k].len() implies #[trigger] r[k][i] != sep by {
                assert(r[k] == h[k]);
            }
        }
    }
}

proof fn lemma_walk_clean(s: Seq<Seq<char>>, parts: Seq<Seq<char>>)
    requires
        all_clean(s),
        forall|k: int, i: int| 0 <= k < parts.len() && 0 <= i < parts[k].len() ==> #[trigger] parts[k][i] != '/',
    ensures
        all_clean(walk(s, parts)),
    decreases parts.len(),
{
    if parts.len() > 0 {
        let d = parts.drop_last();
        assert forall|k: int, i: int| 0 <= k < d.len() && 0 <= i < d[k].len() implies #[trigger] d[k][i] != '/' by {
            assert(d[k] == parts[k]);
        }
        lemma_walk_clean(s, d);
        let w = walk(s, d);
        let p = parts.last();
        assert forall|i: int| 0 <= i < p.len() implies #[trigger] p[i] != '/' by {
            assert(parts[parts.len() - 1][i] != '/');
        }
        let r = walk_step(w, p);
        assert forall|i: int| 0 <= i < r.len() implies clean_segment(#[trigger] r[i]) by {
            if i < w.len() {
                assert(r[i] == w[i]);
            }
        }
    }
}

/// A path normalized against a clean working directory is workspace
/// relative: every segment is a real name (no empty, `.` or `..` segment),
/// so the result has no leading, trailing or doubled slash.
pub proof fn lemma_normalized_paths_are_clean(base: Seq<char>, path: Seq<char>)
    requires
        has_prefix(path, "/"@) || all_clean(path_segments(base)),
    ensures
        all_clean(normal_segments(base, path)),
{
    lemma_split_parts(path, '/');
    if has_prefix(path, "/"@) {
        lemma_walk_clean(Seq::empty(), split(path, '/'));
    } else {
        lemma_walk_clean(path_segments(base), split(path, '/'));
    }
}


/// Walking through clean segments appends them.
proof fn lemma_walk_appends(s: Seq<Seq<char>>, parts: Seq<Seq<char>>)
    requires
        all_clean(parts),
    ensures
        walk(s, parts) == s + parts,
    decreases parts.len(),
{
    reveal_strlit(".");
    reveal_strlit("..");
    if parts.len() > 0 {
        let d = parts.drop_last();
        assert forall|i: int| 0 <= i < d.len() implies clean_segment(#[trigger] d[i]) by {
            assert(d[i] == parts[i]);
        }
        lemma_walk_appends(s, d);
        assert(clean_segment(parts[parts.len() - 1]));
        assert((s + d).push(parts.last()) =~= s + parts);
    }
}

/// A join starts with the first part's first character.
proof fn lemma_join_first(parts: Seq<Seq<char>>, sep: Seq<char>)
    requires
        parts.len() > 0,
        parts[0].len() > 0,
    ensures
        join(parts, sep).len() > 0,
        join(parts, sep)[0] == parts[0][0],
    decreases parts.len(),
{
    if parts.len() > 1 {
        let d = parts.drop_last();
        assert(d[0] == parts[0]);
        lemma_join_first(d, sep);
    }
}

/// Normalizing is idempotent: a path normalized against a working
/// directory with no `.` or `..` segment (or an absolute path) is made of
/// real names only, and normalizing it again from the root gives it back
/// unchanged. A `.` or `..` in the working directory stays in the result
/// (`normalize("..", "a")` is `../a`), and then the law fails.
pub proof fn lemma_normalize_idempotent(base: Seq<char>, path: Seq<char>)
    requires
        has_prefix(path, "/"@) || all_clean(path_segments(base)),
    ensures
        !has_prefix(spec_normalize(base, path), "/"@),
        spec_normalize(""@, spec_normalize(base, path)) == spec_normalize(base, path),
{
    reveal_strlit("/");
    reveal_strlit("");
    lemma_normalized_paths_are_clean(base, path);
    let segs = normal_segments(base, path);
    let r = spec_normalize(base, path);
    assert(""@ =~= Seq::<char>::empty());
    assert(split(Seq::<char>::empty(), '/') == seq![Seq::<char>::empty()]);
    let one = seq![Seq::<char>::empty()];
    assert(one.drop_last() =~= Seq::<Seq<char>>::empty());
    assert(one.last().len() == 0);
    assert(non_empty(Seq::<Seq<char>>::empty()) == Seq::<Seq<char>>::empty());
    assert(non_empty(one) == non_empty(one.drop_last()));
    assert(path_segments(""@) =~= Seq::<Seq<char>>::empty());
    if segs.len() == 0 {
        assert(r =~= Seq::<char>::empty());
        assert(walk(Seq::empty(), Seq::<Seq<char>>::empty()) == Seq::<Seq<char>>::empty());
        assert(walk(Seq::empty(), one) == walk_step(walk(Seq::empty(), one.drop_last()), one.last()));
    } else {
        assert(clean_segment(segs[0]));
        lemma_join_first(segs, "/"@);
        assert(r[0] != '/') by {
            assert(segs[0][0] != '/');
        }
        assert(!has_prefix(r, "/"@)) by {
            if has_prefix(r, "/"@) {
                assert(r.take(1)[0] == '/');
            }
        }
        assert("/"@ =~= seq!['/']);
        assert forall|i: int| 0 <= i < segs.len() implies !(#[trigger] segs[i]).contains('/') by {
            assert(clean_segment(segs[i]));
            if segs[i].contains('/') {
                let k = choose|k: int| 0 <= k < segs[i].len() && segs[i][k] == '/';
                assert(segs[i][k] != '/');
            }
        }
        crate::turn::lemma_split_join(segs, '/');
        lemma_walk_appends(Seq::empty(), segs);
        assert(Seq::<Seq<char>>::empty() + segs =~= segs);
    }
}

/// A segment that is not empty and holds no slash.
pub open spec fn plain_segment(p: Seq<char>) -> bool {
    p.len() > 0 && forall|i: int| 0 <= i < p.len() ==> #[trigger] p[i] != '/'
}

/// Dropping empty parts keeps the other parts, in order.
proof fn lemma_non_empty_parts(parts: Seq<Seq<char>>)
    ensures
        forall|i: int| 0 <= i < non_empty(parts).len() ==> (#[trigger] non_empty(parts)[i]).len() > 0
            && parts.contains(non_empty(parts)[i]),
    decreases parts.len(),
{
    if parts.len() > 0 {
        let d = parts.drop_last();
        lemma_non_empty_parts(d);
        let n = non_empty(parts);
        let nd = non_empty(d);
        assert forall|i: int| 0 <= i < n.len() implies (#[trigger] n[i]).len() > 0 && parts.contains(n[i]) by {
            if i < nd.len() {
                assert(n[i] == nd[i]);
                let k = choose|k: int| 0 <= k < d.len() && d[k] == nd[i];
                assert(parts[k] == d[k]);
            } else {
                assert(n[i] == parts.last());
                assert(parts[parts.len() - 1] == parts.last());
            }
        }
    }
}

proof fn lemma_walk_plain(s: Seq<Seq<char>>, parts: Seq<Seq<char>>)
    requires
        forall|i: int| 0 <= i < s.len() ==> plain_segment(#[trigger] s[i]),
        forall|k: int, i: int| 0 <= k < parts.len() && 0 <= i < parts[k].len() ==> #[trigger] parts[k][i] != '/',
    ensures
        forall|i: int| 0 <= i < walk(s, parts).len() ==> plain_segment(#[trigger] walk(s, parts)[i]),
    decreases parts.len(),
{
    if parts.len() > 0 {
        let d = parts.drop_last();
        assert forall|k: int, i: int| 0 <= k < d.len() && 0 <= i < d[k].len() implies #[trigger] d[k][i] != '/' by {
            assert(d[k] == parts[k]);
        }
        lemma_walk_plain(s, d);
        let w = walk(s, d);
        let p = parts.last();
        assert forall|i: int| 0 <= i < p.len() implies #[trigger] p[i] != '/' by {
            assert(parts[parts.len() - 1][i] != '/');
        }
        let r = walk_step(w, p);
        assert forall|i: int| 0 <= i < r.len() implies plain_segment(#[trigger] r[i]) by {
            if i < w.len() {
                assert(r[i] == w[i]);
            }
        }
    }
}

/// A normalized path never starts with a slash, whatever the working
/// directory and the path; and an absolute path normalizes the same from
/// any working directory as from the root.
pub proof fn lemma_normalized_paths_are_relative(base: Seq<char>, path: Seq<char>)
    ensures
        !has_prefix(spec_normalize(base, path), "/"@),
        has_prefix(path, "/"@) ==> spec_normalize(base, path) == spec_normalize(""@, path),
{
    reveal_strlit("/");
    lemma_split_parts(base, '/');
    lemma_split_parts(path, '/');
    let bs = split(base, '/');
    lemma_non_empty_parts(bs);
    let start = path_segments(base);
    assert forall|i: int| 0 <= i < start.len() implies plain_segment(#[trigger] start[i]) by {
        let k = choose|k: int| 0 <= k < bs.len() && bs[k] == start[i];
        assert forall|j: int| 0 <= j < start[i].len() implies #[trigger] start[i][j] != '/' by {
            assert(bs[k][j] != '/');
        }
    }
    lemma_walk_plain(start, split(path, '/'));
    lemma_walk_plain(Seq::empty(), split(path, '/'));
    let segs = normal_segments(base, path);
    let r = spec_normalize(base, path);
    if segs.len() > 0 {
        assert(plain_segment(segs[0]));
        lemma_join_first(segs, "/"@);
        assert(!has_prefix(r, "/"@)) by {
            if has_prefix(r, "/"@) {
                assert(r.take(1)[0] == '/');
                assert(segs[0][0] != '/');
            }
        }
    } else {
        assert(r =~= Seq::<char>::empty());
    }
}

} // verus!
